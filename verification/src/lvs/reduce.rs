//! Series/parallel reduction of extracted MOS devices.
//!
//! Parallel devices (same kind, flavor, class, gate, body, length and the same
//! unordered source/drain pair) merge into one device of summed width. Two
//! devices in series through an internal net (exactly two source/drain
//! incidences, no gate, body, passive, bipolar or protected use) merge into one
//! device of summed length. Reduction repeats until neither applies.
use vstd::prelude::*;
use super::types::{Device, DeviceKind, DeviceFlavor, ExtractedNetlist};

verus! {

pub open spec fn class_view(c: Option<String>) -> Option<Seq<char>> {
    match c {
        Some(s) => Some(s@),
        None => None,
    }
}

/// Source and drain in ascending order.
pub open spec fn norm(d: Device) -> Device {
    if d.source > d.drain {
        Device { source: d.drain, drain: d.source, ..d }
    } else {
        d
    }
}

/// Devices that may merge in parallel.
pub open spec fn same_key(a: Device, b: Device) -> bool {
    &&& a.kind == b.kind
    &&& a.flavor == b.flavor
    &&& a.gate == b.gate
    &&& a.source == b.source
    &&& a.drain == b.drain
    &&& a.body == b.body
    &&& a.l == b.l
    &&& class_view(a.device_class) == class_view(b.device_class)
}

/// Last index below `n` of a device with the key of `d`.
pub open spec fn last_key_index(out: Seq<Device>, d: Device, n: int) -> Option<int>
    decreases n,
{
    if n <= 0 {
        None
    } else if same_key(out[n - 1], d) {
        Some(n - 1)
    } else {
        last_key_index(out, d, n - 1)
    }
}

/// Adds one device: its width joins the latest device of the same key when
/// the sum fits, otherwise it is appended.
pub open spec fn par_step(out: Seq<Device>, d0: Device) -> Seq<Device> {
    let d = norm(d0);
    match last_key_index(out, d, out.len() as int) {
        Some(j) => if i32::MIN <= out[j].w + d.w <= i32::MAX {
            out.update(j, Device { w: (out[j].w + d.w) as i32, ..out[j] })
        } else {
            out.push(d)
        },
        None => out.push(d),
    }
}

/// Parallel reduction of a device list, in list order.
pub open spec fn parallel_spec(s: Seq<Device>) -> Seq<Device>
    decreases s.len(),
{
    if s.len() == 0 {
        s
    } else {
        par_step(parallel_spec(s.drop_last()), s.last())
    }
}

fn same_class(a: &Option<String>, b: &Option<String>) -> (r: bool)
    ensures
        r == (class_view(*a) == class_view(*b)),
{
    match (a, b) {
        (Some(x), Some(y)) => *x == *y,
        (None, None) => true,
        _ => false,
    }
}

fn copy_class(c: &Option<String>) -> (r: Option<String>)
    ensures
        r == *c,
{
    match c {
        Some(s) => Some(s.clone()),
        None => None,
    }
}

/// An exact copy of a device.
pub fn copy_device(d: &Device) -> (r: Device)
    ensures
        r == *d,
{
    Device {
        kind: d.kind,
        gate: d.gate,
        source: d.source,
        drain: d.drain,
        body: d.body,
        flavor: d.flavor,
        w: d.w,
        l: d.l,
        device_class: copy_class(&d.device_class),
    }
}

fn keys_equal(a: &Device, b: &Device) -> (r: bool)
    ensures
        r == same_key(*a, *b),
{
    a.kind == b.kind && a.flavor == b.flavor && a.gate == b.gate && a.source == b.source && a.drain == b.drain
        && a.body == b.body && a.l == b.l && same_class(&a.device_class, &b.device_class)
}

fn find_last_key(out: &Vec<Device>, d: &Device) -> (r: Option<usize>)
    ensures
        r matches Some(j) ==> last_key_index(out@, *d, out@.len() as int) == Some(j as int) && j < out@.len(),
        r is None ==> last_key_index(out@, *d, out@.len() as int) is None,
{
    let mut n = out.len();
    while n > 0
        invariant
            n <= out@.len(),
            last_key_index(out@, *d, out@.len() as int) == last_key_index(out@, *d, n as int),
        decreases n,
    {
        if keys_equal(&out[n - 1], d) {
            return Some(n - 1);
        }
        n = n - 1;
    }
    None
}

/// Merges parallel devices (see `parallel_spec`).
fn parallel_reduce(devices: &Vec<Device>) -> (r: Vec<Device>)
    ensures
        r@ == parallel_spec(devices@),
{
    let mut out: Vec<Device> = Vec::new();
    let mut i: usize = 0;
    while i < devices.len()
        invariant
            i <= devices@.len(),
            out@ == parallel_spec(devices@.take(i as int)),
        decreases devices@.len() - i,
    {
        let mut d = copy_device(&devices[i]);
        if d.source > d.drain {
            let s = d.source;
            d.source = d.drain;
            d.drain = s;
        }
        assert(d == norm(devices@[i as int]));
        proof {
            assert(devices@.take(i as int + 1).drop_last() =~= devices@.take(i as int));
            assert(devices@.take(i as int + 1).last() == devices@[i as int]);
        }
        let ghost prev = out@;
        match find_last_key(&out, &d) {
            Some(j) => {
                let sum = out[j].w as i64 + d.w as i64;
                if i32::MIN as i64 <= sum && sum <= i32::MAX as i64 {
                    let mut merged = copy_device(&out[j]);
                    merged.w = sum as i32;
                    out.set(j, merged);
                } else {
                    out.push(d);
                }
            },
            None => {
                out.push(d);
            },
        }
        assert(out@ =~= par_step(prev, devices@[i as int]));
        i = i + 1;
    }
    assert(devices@.take(devices@.len() as int) =~= devices@);
    out
}

// --- series reduction ---

/// Device indices with source (then drain) on net `n`, in device order.
pub open spec fn incidence(devs: Seq<Device>, n: u32, upto: int) -> Seq<int>
    decreases upto,
{
    if upto <= 0 {
        Seq::empty()
    } else {
        let prev = incidence(devs, n, upto - 1);
        let d = devs[upto - 1];
        let a = if d.source == n { prev.push(upto - 1) } else { prev };
        if d.drain == n { a.push(upto - 1) } else { a }
    }
}

/// Net `n` is observable: a gate or resolved body, a passive or bipolar
/// terminal, or a protected (labelled) net.
/// The MOS devices are `devs`; the passive and bipolar devices those of `ext`.
pub open spec fn forbidden(ext: ExtractedNetlist, devs: Seq<Device>, protected: Seq<u32>, n: u32) -> bool {
    ||| protected.contains(n)
    ||| exists|i: int| 0 <= i < devs.len() && (#[trigger] devs[i]).gate == n
    ||| exists|i: int| 0 <= i < devs.len() && (#[trigger] devs[i]).body == n && n != u32::MAX
    ||| exists|i: int| 0 <= i < ext.two_terminal@.len() && ((#[trigger] ext.two_terminal@[i]).terminal_a == n
        || ext.two_terminal@[i].terminal_b == n)
    ||| exists|i: int| 0 <= i < ext.bjt_devices@.len() && ((#[trigger] ext.bjt_devices@[i]).collector == n
        || ext.bjt_devices@[i].base == n || ext.bjt_devices@[i].emitter == n)
}

/// Devices that may merge in series.
pub open spec fn compatible(a: Device, b: Device) -> bool {
    &&& a.kind == b.kind
    &&& a.flavor == b.flavor
    &&& class_view(a.device_class) == class_view(b.device_class)
    &&& a.gate == b.gate
    &&& a.body == b.body
    &&& a.w == b.w
}

/// The source/drain terminal of `d` opposite `shared`, when exactly one is `shared`.
pub open spec fn other_sd(d: Device, shared: u32) -> Option<u32> {
    if d.source == shared && d.drain != shared {
        Some(d.drain)
    } else if d.source != shared && d.drain == shared {
        Some(d.source)
    } else {
        None
    }
}

/// Net `n` joins two devices that merge into one in series.
pub open spec fn series_ok(ext: ExtractedNetlist, devs: Seq<Device>, protected: Seq<u32>, n: u32) -> bool {
    let inc = incidence(devs, n, devs.len() as int);
    &&& !forbidden(ext, devs, protected, n)
    &&& inc.len() == 2
    &&& inc[0] != inc[1]
    &&& compatible(devs[inc[0]], devs[inc[1]])
    &&& other_sd(devs[inc[0]], n) is Some
    &&& other_sd(devs[inc[1]], n) is Some
    &&& other_sd(devs[inc[0]], n) != other_sd(devs[inc[1]], n)
    &&& devs[inc[0]].l + devs[inc[1]].l <= i32::MAX
    &&& devs[inc[0]].l + devs[inc[1]].l >= i32::MIN
}

/// Device list after merging the pair joined by `n`.
pub open spec fn series_result(devs: Seq<Device>, n: u32) -> Seq<Device> {
    let inc = incidence(devs, n, devs.len() as int);
    let (i, j) = (inc[0], inc[1]);
    let a = devs[i];
    let b = devs[j];
    let merged = Device {
        source: other_sd(a, n)->0,
        drain: other_sd(b, n)->0,
        l: (a.l + b.l) as i32,
        ..a
    };
    let lo = if i < j { i } else { j };
    let hi = if i < j { j } else { i };
    devs.remove(hi).remove(lo).push(merged)
}

pub proof fn lemma_series_result_len(ext: ExtractedNetlist, devs: Seq<Device>, protected: Seq<u32>, n: u32)
    requires
        series_ok(ext, devs, protected, n),
    ensures
        series_result(devs, n).len() == devs.len() - 1,
{
    lemma_incidence_bounds(devs, n, devs.len() as int);
}

/// No series merge is possible.
pub open spec fn series_free(ext: ExtractedNetlist, devs: Seq<Device>, protected: Seq<u32>) -> bool {
    forall|n: u32| !#[trigger] series_ok(ext, devs, protected, n)
}

/// `n` is the lowest net through which a series merge is possible.
pub open spec fn least_series_net(ext: ExtractedNetlist, devs: Seq<Device>, protected: Seq<u32>, n: u32) -> bool {
    &&& series_ok(ext, devs, protected, n)
    &&& forall|m: u32| m < n ==> !#[trigger] series_ok(ext, devs, protected, m)
}

/// The net of the next series merge, if any.
pub open spec fn first_series_net(ext: ExtractedNetlist, devs: Seq<Device>, protected: Seq<u32>) -> Option<u32> {
    if exists|n: u32| #[trigger] least_series_net(ext, devs, protected, n) {
        Some(choose|n: u32| #[trigger] least_series_net(ext, devs, protected, n))
    } else {
        None
    }
}

pub proof fn lemma_least_exists(ext: ExtractedNetlist, devs: Seq<Device>, protected: Seq<u32>, k: u32)
    requires
        series_ok(ext, devs, protected, k),
    ensures
        exists|n: u32| #[trigger] least_series_net(ext, devs, protected, n),
    decreases k,
{
    if exists|m: u32| m < k && #[trigger] series_ok(ext, devs, protected, m) {
        let m = choose|m: u32| m < k && #[trigger] series_ok(ext, devs, protected, m);
        lemma_least_exists(ext, devs, protected, m);
    } else {
        assert(least_series_net(ext, devs, protected, k));
    }
}

pub proof fn lemma_first_series_net(ext: ExtractedNetlist, devs: Seq<Device>, protected: Seq<u32>)
    ensures
        first_series_net(ext, devs, protected) matches Some(n) ==> least_series_net(ext, devs, protected, n),
        first_series_net(ext, devs, protected) is None <==> series_free(ext, devs, protected),
{
    if !series_free(ext, devs, protected) {
        let k = choose|k: u32| #[trigger] series_ok(ext, devs, protected, k);
        lemma_least_exists(ext, devs, protected, k);
    }
}

proof fn lemma_first_series_unique(ext: ExtractedNetlist, devs: Seq<Device>, protected: Seq<u32>, n: u32)
    requires
        least_series_net(ext, devs, protected, n),
    ensures
        first_series_net(ext, devs, protected) == Some(n),
{
    let c = choose|c: u32| #[trigger] least_series_net(ext, devs, protected, c);
    assert(least_series_net(ext, devs, protected, c));
    if c < n {
        assert(!series_ok(ext, devs, protected, c));
    } else if n < c {
        assert(!series_ok(ext, devs, protected, n));
    }
}

/// Repeated reduction: merge parallel devices, then merge in series through
/// the lowest eligible net, until a round changes nothing.
pub open spec fn reduce_spec(ext: ExtractedNetlist, devs: Seq<Device>, protected: Seq<u32>) -> Seq<Device>
    decreases devs.len(),
{
    let p = parallel_spec(devs);
    match first_series_net(ext, p, protected) {
        Some(n) => {
            proof {
                lemma_parallel_len(devs);
                lemma_first_series_net(ext, p, protected);
                lemma_series_result_len(ext, p, protected, n);
            }
            reduce_spec(ext, series_result(p, n), protected)
        },
        None => {
            proof {
                lemma_parallel_len(devs);
            }
            if p.len() < devs.len() {
                reduce_spec(ext, p, protected)
            } else {
                p
            }
        },
    }
}


/// Net `n` is the source or drain of some device.
pub open spec fn is_sd(devs: Seq<Device>, n: u32) -> bool {
    exists|i: int| 0 <= i < devs.len() && ((#[trigger] devs[i]).source == n || devs[i].drain == n)
}

pub proof fn lemma_incidence_bounds(devs: Seq<Device>, n: u32, upto: int)
    requires
        0 <= upto <= devs.len(),
    ensures
        forall|k: int| 0 <= k < incidence(devs, n, upto).len() ==> 0 <= #[trigger] incidence(devs, n, upto)[k] < upto,
        forall|k: int| 0 <= k < incidence(devs, n, upto).len() ==>
            devs[#[trigger] incidence(devs, n, upto)[k]].source == n || devs[incidence(devs, n, upto)[k]].drain == n,
    decreases upto,
{
    if upto > 0 {
        lemma_incidence_bounds(devs, n, upto - 1);
    }
}

proof fn lemma_incidence_empty(devs: Seq<Device>, n: u32, upto: int)
    requires
        0 <= upto <= devs.len(),
        forall|i: int| 0 <= i < upto ==> (#[trigger] devs[i]).source != n && devs[i].drain != n,
    ensures
        incidence(devs, n, upto).len() == 0,
    decreases upto,
{
    if upto > 0 {
        lemma_incidence_empty(devs, n, upto - 1);
    }
}

fn incidence_exec(devs: &Vec<Device>, n: u32) -> (r: Vec<usize>)
    ensures
        r@.len() == incidence(devs@, n, devs@.len() as int).len(),
        forall|k: int| 0 <= k < r@.len() ==> #[trigger] r@[k] as int == incidence(devs@, n, devs@.len() as int)[k],
{
    let mut r: Vec<usize> = Vec::new();
    let mut i: usize = 0;
    while i < devs.len()
        invariant
            i <= devs@.len(),
            r@.len() == incidence(devs@, n, i as int).len(),
            forall|k: int| 0 <= k < r@.len() ==> #[trigger] r@[k] as int == incidence(devs@, n, i as int)[k],
        decreases devs@.len() - i,
    {
        if devs[i].source == n {
            r.push(i);
        }
        if devs[i].drain == n {
            r.push(i);
        }
        i = i + 1;
    }
    r
}

fn is_forbidden(ext: &ExtractedNetlist, protected: &Vec<u32>, n: u32) -> (b: bool)
    ensures
        b == forbidden(*ext, ext.devices@, protected@, n),
{
    let mut k: usize = 0;
    while k < protected.len()
        invariant
            k <= protected@.len(),
            forall|j: int| 0 <= j < k ==> protected@[j] != n,
        decreases protected@.len() - k,
    {
        if protected[k] == n {
            assert(protected@.contains(n));
            return true;
        }
        k = k + 1;
    }
    let mut i: usize = 0;
    while i < ext.devices.len()
        invariant
            i <= ext.devices@.len(),
            forall|j: int| 0 <= j < i ==> (#[trigger] ext.devices@[j]).gate != n
                && !(ext.devices@[j].body == n && n != u32::MAX),
        decreases ext.devices@.len() - i,
    {
        let d = &ext.devices[i];
        if d.gate == n || (d.body == n && n != u32::MAX) {
            return true;
        }
        i = i + 1;
    }
    let mut i: usize = 0;
    while i < ext.two_terminal.len()
        invariant
            i <= ext.two_terminal@.len(),
            forall|j: int| 0 <= j < i ==> !((#[trigger] ext.two_terminal@[j]).terminal_a == n
                || ext.two_terminal@[j].terminal_b == n),
        decreases ext.two_terminal@.len() - i,
    {
        let d = &ext.two_terminal[i];
        if d.terminal_a == n || d.terminal_b == n {
            return true;
        }
        i = i + 1;
    }
    let mut i: usize = 0;
    while i < ext.bjt_devices.len()
        invariant
            i <= ext.bjt_devices@.len(),
            forall|j: int| 0 <= j < i ==> !((#[trigger] ext.bjt_devices@[j]).collector == n
                || ext.bjt_devices@[j].base == n || ext.bjt_devices@[j].emitter == n),
        decreases ext.bjt_devices@.len() - i,
    {
        let d = &ext.bjt_devices[i];
        if d.collector == n || d.base == n || d.emitter == n {
            return true;
        }
        i = i + 1;
    }
    assert(!protected@.contains(n));
    false
}

/// Smallest source/drain net not below `lower`.
fn min_sd_at_least(devs: &Vec<Device>, lower: u64) -> (r: Option<u32>)
    ensures
        r matches Some(n) ==> is_sd(devs@, n) && lower <= n && forall|m: u32| lower <= m < n ==> !is_sd(devs@, m),
        r is None ==> forall|m: u32| lower <= m ==> !is_sd(devs@, m),
{
    let mut best: Option<u32> = None;
    let mut i: usize = 0;
    while i < devs.len()
        invariant
            i <= devs@.len(),
            best matches Some(b) ==> lower <= b && exists|j: int| 0 <= j < i && ((#[trigger] devs@[j]).source == b || devs@[j].drain == b),
            forall|j: int| 0 <= j < i ==> (lower <= (#[trigger] devs@[j]).source ==> best is Some && best->0 <= devs@[j].source),
            forall|j: int| 0 <= j < i ==> (lower <= (#[trigger] devs@[j]).drain ==> best is Some && best->0 <= devs@[j].drain),
        decreases devs@.len() - i,
    {
        let d = &devs[i];
        let s = d.source;
        let t = d.drain;
        if s as u64 >= lower {
            match best {
                Some(b) => if s < b { best = Some(s); },
                None => { best = Some(s); },
            }
        }
        if t as u64 >= lower {
            match best {
                Some(b) => if t < b { best = Some(t); },
                None => { best = Some(t); },
            }
        }
        i = i + 1;
    }
    best
}

/// Removes the first series-reducible net (lowest net id): its two devices
/// become one device of summed length appended at the end. Returns whether a
/// merge happened.
fn series_reduce_once(ext: &mut ExtractedNetlist, protected: &Vec<u32>) -> (merged: bool)
    ensures
        final(ext).device_sources == old(ext).device_sources,
        final(ext).net_count == old(ext).net_count,
        final(ext).used_nets == old(ext).used_nets,
        final(ext).net_of_poly == old(ext).net_of_poly,
        final(ext).label_conflicts == old(ext).label_conflicts,
        final(ext).two_terminal == old(ext).two_terminal,
        final(ext).bjt_devices == old(ext).bjt_devices,
        final(ext).floating_nets == old(ext).floating_nets,
        !merged ==> final(ext).devices@ == old(ext).devices@ && series_free(*old(ext), old(ext).devices@, protected@),
        merged ==> exists|n: u32| #[trigger] least_series_net(*old(ext), old(ext).devices@, protected@, n)
            && final(ext).devices@ == series_result(old(ext).devices@, n),
{
    let mut lower: u64 = 0;
    while lower <= u32::MAX as u64
        invariant
            *ext == *old(ext),
            forall|m: u32| m < lower ==> !series_ok(*ext, ext.devices@, protected@, m),
        decreases u32::MAX as u64 + 1 - lower,
    {
        match min_sd_at_least(&ext.devices, lower) {
            None => {
                assert forall|m: u32| !series_ok(*ext, ext.devices@, protected@, m) by {
                    if lower <= m && series_ok(*ext, ext.devices@, protected@, m) {
                        let inc = incidence(ext.devices@, m, ext.devices@.len() as int);
                        lemma_incidence_bounds(ext.devices@, m, ext.devices@.len() as int);
                        assert(is_sd(ext.devices@, m)) by {
                            let d = ext.devices@[inc[0]];
                            assert(d.source == m || d.drain == m);
                        }
                    }
                }
                return false;
            },
            Some(n) => {
                let ghost e0 = *ext;
                proof {
                    assert forall|m: u32| m < n implies !series_ok(*ext, ext.devices@, protected@, m) by {
                        if lower <= m && series_ok(*ext, ext.devices@, protected@, m) {
                            let inc = incidence(ext.devices@, m, ext.devices@.len() as int);
                            lemma_incidence_bounds(ext.devices@, m, ext.devices@.len() as int);
                            let d = ext.devices@[inc[0]];
                            assert(d.source == m || d.drain == m);
                            assert(is_sd(ext.devices@, m));
                        }
                    }
                }
                if !is_forbidden(ext, protected, n) {
                    let inc = incidence_exec(&ext.devices, n);
                    proof {
                        lemma_incidence_bounds(ext.devices@, n, ext.devices@.len() as int);
                    }
                    if inc.len() == 2 && inc[0] != inc[1] {
                        let i = inc[0];
                        let j = inc[1];
                        let ok = {
                            let a = &ext.devices[i];
                            let b = &ext.devices[j];
                            let compat = a.kind == b.kind && a.flavor == b.flavor
                                && same_class(&a.device_class, &b.device_class) && a.gate == b.gate
                                && a.body == b.body && a.w == b.w;
                            let ao = if a.source == n && a.drain != n { Some(a.drain) }
                                else if a.source != n && a.drain == n { Some(a.source) } else { None };
                            let bo = if b.source == n && b.drain != n { Some(b.drain) }
                                else if b.source != n && b.drain == n { Some(b.source) } else { None };
                            let lsum = a.l as i64 + b.l as i64;
                            match (ao, bo) {
                                (Some(x), Some(y)) => if compat && x != y && lsum <= i32::MAX as i64 && lsum >= i32::MIN as i64 {
                                    Some((x, y, lsum as i32))
                                } else {
                                    None
                                },
                                _ => None,
                            }
                        };
                        match ok {
                            Some((x, y, l)) => {
                                let mut merged = copy_device(&ext.devices[i]);
                                merged.source = x;
                                merged.drain = y;
                                merged.l = l;
                                let (lo, hi) = if i < j { (i, j) } else { (j, i) };
                                ext.devices.remove(hi);
                                ext.devices.remove(lo);
                                ext.devices.push(merged);
                                assert(series_ok(e0, e0.devices@, protected@, n));
                                assert(least_series_net(e0, e0.devices@, protected@, n));
                                assert(ext.devices@ =~= series_result(e0.devices@, n));
                                return true;
                            },
                            None => {},
                        }
                    }
                }
                assert(!series_ok(*ext, ext.devices@, protected@, n));
                lower = n as u64 + 1;
            },
        }
    }
    assert forall|m: u32| !series_ok(*ext, ext.devices@, protected@, m) by {
        assert(m < lower);
    }
    false
}


// --- fixpoint ---

/// Neither parallel nor series reduction changes the netlist.
pub open spec fn reduced(ext: ExtractedNetlist, protected: Seq<u32>) -> bool {
    is_reduced(ext, ext.devices@, protected)
}

/// Neither parallel nor series reduction changes `devs`.
pub open spec fn is_reduced(ext: ExtractedNetlist, devs: Seq<Device>, protected: Seq<u32>) -> bool {
    parallel_spec(devs) == devs && series_free(ext, devs, protected)
}

/// Nets used by a gate, source or drain.
pub open spec fn used_set(devs: Seq<Device>) -> Set<u32> {
    Set::new(|n: u32| exists|i: int| 0 <= i < devs.len() && ((#[trigger] devs[i]).gate == n || devs[i].source == n || devs[i].drain == n))
}

proof fn lemma_norm_idem(d: Device)
    ensures
        norm(norm(d)) == norm(d),
{
}

pub proof fn lemma_parallel_len(s: Seq<Device>)
    ensures
        parallel_spec(s).len() <= s.len(),
    decreases s.len(),
{
    if s.len() > 0 {
        lemma_parallel_len(s.drop_last());
        lemma_par_step_len(parallel_spec(s.drop_last()), s.last());
    }
}

pub proof fn lemma_last_key_range(out: Seq<Device>, d: Device, n: int)
    ensures
        last_key_index(out, d, n) matches Some(j) ==> 0 <= j < n,
    decreases n,
{
    if n > 0 {
        lemma_last_key_range(out, d, n - 1);
    }
}

pub proof fn lemma_par_step_len(out: Seq<Device>, d: Device)
    ensures
        out.len() <= par_step(out, d).len() <= out.len() + 1,
        par_step(out, d).len() == out.len() + 1 ==> par_step(out, d) == out.push(norm(d)),
{
    lemma_last_key_range(out, norm(d), out.len() as int);
}

proof fn lemma_parallel_noop(s: Seq<Device>)
    requires
        parallel_spec(s).len() == s.len(),
    ensures
        parallel_spec(s) == s.map_values(|d: Device| norm(d)),
        parallel_spec(s.map_values(|d: Device| norm(d))) == s.map_values(|d: Device| norm(d)),
    decreases s.len(),
{
    let ns = s.map_values(|d: Device| norm(d));
    if s.len() == 0 {
        assert(ns =~= s);
    } else {
        let t = s.drop_last();
        let d = s.last();
        lemma_parallel_len(t);
        let pt = parallel_spec(t);
        assert(parallel_spec(s) == par_step(pt, d));
        lemma_par_step_len(pt, d);
        lemma_parallel_noop(t);
        let nt = t.map_values(|d: Device| norm(d));
        assert(pt == nt);
        assert(ns =~= nt.push(norm(d)));
        assert(ns.drop_last() =~= nt);
        lemma_norm_idem(d);
        assert(par_step(nt, norm(d)) == par_step(nt, d));
        assert(parallel_spec(ns) == par_step(parallel_spec(ns.drop_last()), ns.last()));
    }
}

proof fn lemma_same_context(e1: ExtractedNetlist, e2: ExtractedNetlist, devs: Seq<Device>, protected: Seq<u32>)
    requires
        e1.two_terminal@ == e2.two_terminal@,
        e1.bjt_devices@ == e2.bjt_devices@,
    ensures
        forall|n: u32|
            #![trigger series_ok(e1, devs, protected, n)]
            #![trigger series_ok(e2, devs, protected, n)]
            series_ok(e1, devs, protected, n) == series_ok(e2, devs, protected, n),
        series_free(e1, devs, protected) == series_free(e2, devs, protected),
{
    assert forall|n: u32|
        #![trigger series_ok(e1, devs, protected, n)]
        #![trigger series_ok(e2, devs, protected, n)]
        series_ok(e1, devs, protected, n) == series_ok(e2, devs, protected, n) by {
        assert(forbidden(e1, devs, protected, n) == forbidden(e2, devs, protected, n));
    }
}

/// A device list that neither reduction changes is its own reduction.
proof fn lemma_reduced_fixed(ext: ExtractedNetlist, devs: Seq<Device>, protected: Seq<u32>)
    requires
        is_reduced(ext, devs, protected),
    ensures
        reduce_spec(ext, devs, protected) == devs,
{
    lemma_first_series_net(ext, devs, protected);
}

/// Reduction never adds a device.
pub proof fn lemma_reduce_len(ext: ExtractedNetlist, devs: Seq<Device>, protected: Seq<u32>)
    ensures
        reduce_spec(ext, devs, protected).len() <= devs.len(),
    decreases devs.len(),
{
    let p = parallel_spec(devs);
    lemma_parallel_len(devs);
    lemma_first_series_net(ext, p, protected);
    match first_series_net(ext, p, protected) {
        Some(n) => {
            lemma_series_result_len(ext, p, protected, n);
            lemma_reduce_len(ext, series_result(p, n), protected);
        },
        None => {
            if p.len() < devs.len() {
                lemma_reduce_len(ext, p, protected);
            }
        },
    }
}

/// The result of reduction admits no further parallel or series merge.
pub proof fn lemma_reduce_spec_reduced(ext: ExtractedNetlist, devs: Seq<Device>, protected: Seq<u32>)
    ensures
        is_reduced(ext, reduce_spec(ext, devs, protected), protected),
    decreases devs.len(),
{
    let p = parallel_spec(devs);
    lemma_parallel_len(devs);
    lemma_first_series_net(ext, p, protected);
    match first_series_net(ext, p, protected) {
        Some(n) => {
            lemma_series_result_len(ext, p, protected, n);
            lemma_reduce_spec_reduced(ext, series_result(p, n), protected);
        },
        None => {
            if p.len() < devs.len() {
                lemma_reduce_spec_reduced(ext, p, protected);
            } else {
                lemma_parallel_noop(devs);
            }
        },
    }
}

/// Reducing a reduced netlist again changes nothing.
pub proof fn lemma_reduce_idempotent(ext: ExtractedNetlist, devs: Seq<Device>, protected: Seq<u32>)
    ensures
        reduce_spec(ext, reduce_spec(ext, devs, protected), protected) == reduce_spec(ext, devs, protected),
{
    lemma_reduce_spec_reduced(ext, devs, protected);
    lemma_reduced_fixed(ext, reduce_spec(ext, devs, protected), protected);
}

fn count_used(devs: &Vec<Device>) -> (n: usize)
    ensures
        n == used_set(devs@).len(),
{
    let mut seen: Vec<u32> = Vec::new();
    let mut i: usize = 0;
    while i < devs.len()
        invariant
            i <= devs@.len(),
            seen@.no_duplicates(),
            seen@.to_set() == Set::new(|n: u32| exists|j: int| 0 <= j < i
                && ((#[trigger] devs@[j]).gate == n || devs@[j].source == n || devs@[j].drain == n)),
        decreases devs@.len() - i,
    {
        let d = &devs[i];
        let ghost before = seen@;
        add_distinct(&mut seen, d.gate);
        add_distinct(&mut seen, d.source);
        add_distinct(&mut seen, d.drain);
        proof {
            assert(seen@.to_set() =~= Set::new(|n: u32| exists|j: int| 0 <= j < i + 1
                && ((#[trigger] devs@[j]).gate == n || devs@[j].source == n || devs@[j].drain == n))) by {
                assert forall|n: u32| seen@.to_set().contains(n) implies exists|j: int| 0 <= j < i + 1
                    && ((#[trigger] devs@[j]).gate == n || devs@[j].source == n || devs@[j].drain == n) by {
                    if before.to_set().contains(n) {
                        let j = choose|j: int| 0 <= j < i
                            && ((#[trigger] devs@[j]).gate == n || devs@[j].source == n || devs@[j].drain == n);
                    } else {
                        assert(devs@[i as int] == *d);
                    }
                }
                assert forall|n: u32| (exists|j: int| 0 <= j < i + 1
                    && ((#[trigger] devs@[j]).gate == n || devs@[j].source == n || devs@[j].drain == n))
                    implies seen@.to_set().contains(n) by {
                    let j = choose|j: int| 0 <= j < i + 1
                        && ((#[trigger] devs@[j]).gate == n || devs@[j].source == n || devs@[j].drain == n);
                    if j < i {
                        assert(before.to_set().contains(n));
                    } else {
                        assert(devs@[j] == *d);
                    }
                }
            }
        }
        i = i + 1;
    }
    proof {
        seen@.unique_seq_to_set();
        assert(used_set(devs@) =~= seen@.to_set());
    }
    seen.len()
}

fn add_distinct(v: &mut Vec<u32>, n: u32)
    requires
        old(v)@.no_duplicates(),
    ensures
        final(v)@.no_duplicates(),
        final(v)@.to_set() == old(v)@.to_set().insert(n),
{
    let mut k: usize = 0;
    while k < v.len()
        invariant
            k <= v@.len(),
            v@ == old(v)@,
            v@.no_duplicates(),
            forall|j: int| 0 <= j < k ==> v@[j] != n,
        decreases v@.len() - k,
    {
        if v[k] == n {
            assert(v@.to_set() =~= old(v)@.to_set().insert(n)) by {
                assert(v@.to_set().contains(n)) by { assert(v@[k as int] == n); }
            }
            return;
        }
        k = k + 1;
    }
    v.push(n);
    proof {
        assert(v@.to_set() =~= old(v)@.to_set().insert(n)) by {
            assert forall|x: u32| v@.to_set().contains(x) implies old(v)@.to_set().insert(n).contains(x) by {
                let j = choose|j: int| 0 <= j < v@.len() && v@[j] == x;
                if j < old(v)@.len() {
                    assert(old(v)@[j] == x);
                }
            }
            assert forall|x: u32| old(v)@.to_set().insert(n).contains(x) implies v@.to_set().contains(x) by {
                if x == n {
                    assert(v@[old(v)@.len() as int] == n);
                } else {
                    let j = choose|j: int| 0 <= j < old(v)@.len() && old(v)@[j] == x;
                    assert(v@[j] == x);
                }
            }
        }
        assert forall|i: int, j: int| 0 <= i < j < v@.len() implies v@[i] != v@[j] by {
            if j == v@.len() - 1 {
                assert(v@[j] == n);
            }
        }
    }
}

/// Repeats parallel then series reduction until neither changes the netlist
/// (`reduce_spec`); `protected` nets are never removed. Clears the per-device
/// recognition sources (a merged device has no single source) and recounts the
/// used nets.
pub fn reduce_netlist_with_protected(ext: &mut ExtractedNetlist, protected: &Vec<u32>)
    ensures
        final(ext).devices@ == reduce_spec(*old(ext), old(ext).devices@, protected@),
        final(ext).device_sources@.len() == 0,
        final(ext).net_count == old(ext).net_count,
        final(ext).net_of_poly == old(ext).net_of_poly,
        final(ext).label_conflicts == old(ext).label_conflicts,
        final(ext).two_terminal == old(ext).two_terminal,
        final(ext).bjt_devices == old(ext).bjt_devices,
        final(ext).floating_nets == old(ext).floating_nets,
        reduced(*final(ext), protected@),
        reduced(*old(ext), protected@) ==> final(ext).devices@ == old(ext).devices@,
        final(ext).devices@.len() <= old(ext).devices@.len(),
        forall|i: int| 0 <= i < final(ext).devices@.len() ==> (#[trigger] final(ext).devices@[i]).source <= final(ext).devices@[i].drain,
        final(ext).used_nets == used_set(final(ext).devices@).len(),
{
    let ghost orig = *old(ext);
    let ghost target = reduce_spec(orig, orig.devices@, protected@);
    ext.device_sources.clear();
    let mut done = false;
    while !done
        invariant
            ext.device_sources@.len() == 0,
            ext.net_count == orig.net_count,
            ext.net_of_poly == orig.net_of_poly,
            ext.label_conflicts == orig.label_conflicts,
            ext.two_terminal == orig.two_terminal,
            ext.bjt_devices == orig.bjt_devices,
            ext.floating_nets == orig.floating_nets,
            target == reduce_spec(orig, orig.devices@, protected@),
            !done ==> reduce_spec(orig, ext.devices@, protected@) == target,
            done ==> ext.devices@ == target,
        decreases (if done { 0int } else { ext.devices@.len() as int + 1 }),
    {
        let before = ext.devices.len();
        let ghost d0 = ext.devices@;
        let p = parallel_reduce(&ext.devices);
        ext.devices = p;
        let ghost e1 = *ext;
        let ghost pd = e1.devices@;
        proof {
            lemma_parallel_len(d0);
            lemma_same_context(e1, orig, pd, protected@);
            lemma_first_series_net(orig, pd, protected@);
        }
        let merged = series_reduce_once(ext, protected);
        proof {
            if merged {
                let n = choose|n: u32| #[trigger] least_series_net(e1, pd, protected@, n)
                    && ext.devices@ == series_result(pd, n);
                assert(least_series_net(orig, pd, protected@, n));
                lemma_first_series_unique(orig, pd, protected@, n);
                lemma_series_result_len(orig, pd, protected@, n);
            }
        }
        if !merged && ext.devices.len() == before {
            done = true;
        }
    }
    proof {
        lemma_reduce_spec_reduced(orig, orig.devices@, protected@);
        lemma_same_context(*ext, orig, ext.devices@, protected@);
        lemma_reduce_len(orig, orig.devices@, protected@);
        if reduced(orig, protected@) {
            lemma_reduced_fixed(orig, orig.devices@, protected@);
        }
    }
    proof {
        lemma_parallel_normalized(ext.devices@);
    }
    let ghost pre = *ext;
    ext.used_nets = count_used(&ext.devices);
    proof {
        lemma_same_context(pre, *ext, ext.devices@, protected@);
    }
}

/// Every device of a parallel reduction has its source at or below its drain.
pub proof fn lemma_parallel_normalized(s: Seq<Device>)
    ensures
        forall|i: int| 0 <= i < parallel_spec(s).len() ==> (#[trigger] parallel_spec(s)[i]).source <= parallel_spec(s)[i].drain,
    decreases s.len(),
{
    if s.len() > 0 {
        lemma_parallel_normalized(s.drop_last());
        let out = parallel_spec(s.drop_last());
        let d = norm(s.last());
        lemma_last_key_range(out, d, out.len() as int);
        let r = parallel_spec(s);
        assert forall|i: int| 0 <= i < r.len() implies (#[trigger] r[i]).source <= r[i].drain by {
            if i < out.len() {
                assert(out[i].source <= out[i].drain);
            }
        }
    }
}

/// Reduces a netlist with no protected nets.
pub fn reduce_netlist(ext: &mut ExtractedNetlist)
    ensures
        final(ext).devices@ == reduce_spec(*old(ext), old(ext).devices@, Seq::empty()),
        final(ext).device_sources@.len() == 0,
        final(ext).net_count == old(ext).net_count,
        final(ext).net_of_poly == old(ext).net_of_poly,
        final(ext).label_conflicts == old(ext).label_conflicts,
        final(ext).two_terminal == old(ext).two_terminal,
        final(ext).bjt_devices == old(ext).bjt_devices,
        final(ext).floating_nets == old(ext).floating_nets,
        reduced(*final(ext), Seq::empty()),
        reduced(*old(ext), Seq::empty()) ==> final(ext).devices@ == old(ext).devices@,
        final(ext).devices@.len() <= old(ext).devices@.len(),
        forall|i: int| 0 <= i < final(ext).devices@.len() ==> (#[trigger] final(ext).devices@[i]).source <= final(ext).devices@[i].drain,
        final(ext).used_nets == used_set(final(ext).devices@).len(),
{
    let none: Vec<u32> = Vec::new();
    proof {
        assert(none@ =~= Seq::<u32>::empty());
    }
    reduce_netlist_with_protected(ext, &none);
}

// --- gates survive reduction ---

/// Some device of `s` has gate net `g`.
pub open spec fn has_gate(s: Seq<Device>, g: u32) -> bool {
    exists|i: int| 0 <= i < s.len() && (#[trigger] s[i]).gate == g
}

proof fn lemma_par_step_gates(out: Seq<Device>, d0: Device, g: u32)
    ensures
        has_gate(par_step(out, d0), g) <==> (has_gate(out, g) || d0.gate == g),
{
    let d = norm(d0);
    lemma_last_key_range(out, d, out.len() as int);
    let r = par_step(out, d0);
    match last_key_index(out, d, out.len() as int) {
        Some(j) => {
            lemma_last_key_same(out, d, out.len() as int);
            if i32::MIN <= out[j].w + d.w <= i32::MAX {
                assert(r[j].gate == out[j].gate);
                if has_gate(r, g) {
                    let i = choose|i: int| 0 <= i < r.len() && (#[trigger] r[i]).gate == g;
                    assert(out[i].gate == g);
                }
                if has_gate(out, g) {
                    let i = choose|i: int| 0 <= i < out.len() && (#[trigger] out[i]).gate == g;
                    assert(r[i].gate == g);
                }
                if d0.gate == g {
                    assert(r[j].gate == g);
                }
            } else {
                lemma_push_gates(out, d, g);
            }
        },
        None => {
            lemma_push_gates(out, d, g);
        },
    }
}

proof fn lemma_last_key_same(out: Seq<Device>, d: Device, n: int)
    ensures
        last_key_index(out, d, n) matches Some(j) ==> same_key(out[j], d),
    decreases n,
{
    if n > 0 {
        lemma_last_key_same(out, d, n - 1);
    }
}

proof fn lemma_push_gates(out: Seq<Device>, d: Device, g: u32)
    ensures
        has_gate(out.push(d), g) <==> (has_gate(out, g) || d.gate == g),
{
    let r = out.push(d);
    if has_gate(r, g) {
        let i = choose|i: int| 0 <= i < r.len() && (#[trigger] r[i]).gate == g;
        if i < out.len() {
            assert(out[i].gate == g);
        }
    }
    if has_gate(out, g) {
        let i = choose|i: int| 0 <= i < out.len() && (#[trigger] out[i]).gate == g;
        assert(r[i].gate == g);
    }
    if d.gate == g {
        assert(r[out.len() as int].gate == g);
    }
}

/// Parallel reduction keeps exactly the input's gate nets: a device
/// merges only into one driven by the same gate, so every output device is
/// driven by an input device's gate and every input gate still drives an
/// output device.
pub proof fn lemma_parallel_keeps_gates(s: Seq<Device>, g: u32)
    ensures
        has_gate(parallel_spec(s), g) <==> has_gate(s, g),
    decreases s.len(),
{
    if s.len() > 0 {
        let init = s.drop_last();
        lemma_parallel_keeps_gates(init, g);
        lemma_par_step_gates(parallel_spec(init), s.last(), g);
        if has_gate(init, g) {
            let i = choose|i: int| 0 <= i < init.len() && (#[trigger] init[i]).gate == g;
            assert(s[i].gate == g);
        }
        if has_gate(s, g) {
            let i = choose|i: int| 0 <= i < s.len() && (#[trigger] s[i]).gate == g;
            if i < init.len() {
                assert(init[i].gate == g);
            }
        }
    }
}

/// A series merge keeps exactly the input's gate nets: the two devices
/// it merges share their gate, which the merged device keeps.
pub proof fn lemma_series_keeps_gates(ext: ExtractedNetlist, devs: Seq<Device>, protected: Seq<u32>, n: u32, g: u32)
    requires
        series_ok(ext, devs, protected, n),
    ensures
        has_gate(series_result(devs, n), g) <==> has_gate(devs, g),
{
    lemma_incidence_bounds(devs, n, devs.len() as int);
    let inc = incidence(devs, n, devs.len() as int);
    let (i, j) = (inc[0], inc[1]);
    assert(0 <= i < devs.len() && 0 <= j < devs.len());
    let a = devs[i];
    let lo = if i < j { i } else { j };
    let hi = if i < j { j } else { i };
    let rest = devs.remove(hi).remove(lo);
    let r = series_result(devs, n);
    assert(r == rest.push(Device { source: other_sd(a, n)->0, drain: other_sd(devs[j], n)->0, l: (a.l + devs[j].l) as i32, ..a }));
    assert(r[rest.len() as int].gate == a.gate);
    assert(devs[j].gate == a.gate);
    // every kept device is a device of `devs` other than `lo` and `hi`
    assert forall|k: int| 0 <= k < rest.len() implies #[trigger] rest[k] == devs[if k < lo { k } else if k + 1 < hi { k + 1 } else { k + 2 }] by {
        let t = devs.remove(hi);
        if k < lo {
            assert(rest[k] == t[k]);
        } else {
            assert(rest[k] == t[k + 1]);
        }
    }
    if has_gate(r, g) {
        let k = choose|k: int| 0 <= k < r.len() && (#[trigger] r[k]).gate == g;
        if k < rest.len() {
            let m = if k < lo { k } else if k + 1 < hi { k + 1 } else { k + 2 };
            assert(rest[k] == devs[m]);
            assert(devs[m].gate == g);
        } else {
            assert(a.gate == g);
        }
    }
    if has_gate(devs, g) {
        let m = choose|m: int| 0 <= m < devs.len() && (#[trigger] devs[m]).gate == g;
        if m == lo || m == hi {
            assert(r[rest.len() as int].gate == g);
        } else {
            let k = if m < lo { m } else if m < hi { m - 1 } else { m - 2 };
            assert(rest[k] == devs[m]);
            assert(r[k] == rest[k]);
        }
    }
}

/// Reduction keeps exactly the input's gate nets: for every net, some
/// reduced device is driven by it exactly when some input device is (a
/// transistor driven by a net of its own is never merged away).
pub proof fn lemma_reduce_keeps_gates(ext: ExtractedNetlist, devs: Seq<Device>, protected: Seq<u32>, g: u32)
    ensures
        has_gate(reduce_spec(ext, devs, protected), g) <==> has_gate(devs, g),
    decreases devs.len(),
{
    let p = parallel_spec(devs);
    lemma_parallel_keeps_gates(devs, g);
    lemma_parallel_len(devs);
    lemma_first_series_net(ext, p, protected);
    match first_series_net(ext, p, protected) {
        Some(n) => {
            lemma_series_result_len(ext, p, protected, n);
            lemma_series_keeps_gates(ext, p, protected, n, g);
            lemma_reduce_keeps_gates(ext, series_result(p, n), protected, g);
        },
        None => {
            if p.len() < devs.len() {
                lemma_reduce_keeps_gates(ext, p, protected, g);
            }
        },
    }
}

// --- parallel reduction merges only devices of one key ---

/// The key parallel reduction merges on: kind, flavor, gate, body, length,
/// class and the unordered source/drain pair.
pub open spec fn par_key(d: Device) -> (DeviceKind, DeviceFlavor, u32, u32, i32, Option<Seq<char>>, u32, u32) {
    (d.kind, d.flavor, d.gate, d.body, d.l, class_view(d.device_class),
        if d.source <= d.drain { d.source } else { d.drain },
        if d.source <= d.drain { d.drain } else { d.source })
}

/// The terminals and type that every reduction keeps: kind, flavor, gate,
/// body and class.
pub open spec fn drive_key(d: Device) -> (DeviceKind, DeviceFlavor, u32, u32, Option<Seq<char>>) {
    (d.kind, d.flavor, d.gate, d.body, class_view(d.device_class))
}

pub open spec fn has_par_key(s: Seq<Device>, k: (DeviceKind, DeviceFlavor, u32, u32, i32, Option<Seq<char>>, u32, u32)) -> bool {
    exists|i: int| 0 <= i < s.len() && par_key(#[trigger] s[i]) == k
}

pub open spec fn has_drive(s: Seq<Device>, k: (DeviceKind, DeviceFlavor, u32, u32, Option<Seq<char>>)) -> bool {
    exists|i: int| 0 <= i < s.len() && drive_key(#[trigger] s[i]) == k
}

proof fn lemma_push_keys(out: Seq<Device>, d: Device,
    k: (DeviceKind, DeviceFlavor, u32, u32, i32, Option<Seq<char>>, u32, u32),
    e: (DeviceKind, DeviceFlavor, u32, u32, Option<Seq<char>>))
    ensures
        has_par_key(out.push(d), k) <==> (has_par_key(out, k) || par_key(d) == k),
        has_drive(out.push(d), e) <==> (has_drive(out, e) || drive_key(d) == e),
{
    let r = out.push(d);
    if has_par_key(r, k) {
        let i = choose|i: int| 0 <= i < r.len() && par_key(#[trigger] r[i]) == k;
        if i < out.len() { assert(par_key(out[i]) == k); }
    }
    if has_par_key(out, k) {
        let i = choose|i: int| 0 <= i < out.len() && par_key(#[trigger] out[i]) == k;
        assert(par_key(r[i]) == k);
    }
    if par_key(d) == k { assert(par_key(r[out.len() as int]) == k); }
    if has_drive(r, e) {
        let i = choose|i: int| 0 <= i < r.len() && drive_key(#[trigger] r[i]) == e;
        if i < out.len() { assert(drive_key(out[i]) == e); }
    }
    if has_drive(out, e) {
        let i = choose|i: int| 0 <= i < out.len() && drive_key(#[trigger] out[i]) == e;
        assert(drive_key(r[i]) == e);
    }
    if drive_key(d) == e { assert(drive_key(r[out.len() as int]) == e); }
}

proof fn lemma_par_step_keys(out: Seq<Device>, d0: Device,
    k: (DeviceKind, DeviceFlavor, u32, u32, i32, Option<Seq<char>>, u32, u32),
    e: (DeviceKind, DeviceFlavor, u32, u32, Option<Seq<char>>))
    ensures
        has_par_key(par_step(out, d0), k) <==> (has_par_key(out, k) || par_key(d0) == k),
        has_drive(par_step(out, d0), e) <==> (has_drive(out, e) || drive_key(d0) == e),
{
    let d = norm(d0);
    assert(par_key(d) == par_key(d0));
    assert(drive_key(d) == drive_key(d0));
    lemma_last_key_range(out, d, out.len() as int);
    let r = par_step(out, d0);
    match last_key_index(out, d, out.len() as int) {
        Some(j) => {
            lemma_last_key_same(out, d, out.len() as int);
            if i32::MIN <= out[j].w + d.w <= i32::MAX {
                assert(par_key(r[j]) == par_key(out[j]));
                assert(par_key(out[j]) == par_key(d));
                assert(drive_key(r[j]) == drive_key(out[j]));
                assert(drive_key(out[j]) == drive_key(d));
                assert forall|i: int| 0 <= i < r.len() implies par_key(#[trigger] r[i]) == par_key(out[i])
                    && drive_key(r[i]) == drive_key(out[i]) by {}
                if has_par_key(r, k) {
                    let i = choose|i: int| 0 <= i < r.len() && par_key(#[trigger] r[i]) == k;
                    assert(par_key(out[i]) == k);
                }
                if has_par_key(out, k) {
                    let i = choose|i: int| 0 <= i < out.len() && par_key(#[trigger] out[i]) == k;
                    assert(par_key(r[i]) == k);
                }
                if has_drive(r, e) {
                    let i = choose|i: int| 0 <= i < r.len() && drive_key(#[trigger] r[i]) == e;
                    assert(drive_key(out[i]) == e);
                }
                if has_drive(out, e) {
                    let i = choose|i: int| 0 <= i < out.len() && drive_key(#[trigger] out[i]) == e;
                    assert(drive_key(r[i]) == e);
                }
            } else {
                lemma_push_keys(out, d, k, e);
            }
        },
        None => {
            lemma_push_keys(out, d, k, e);
        },
    }
}

/// Parallel reduction keeps exactly the keys of its input: devices merge
/// only with devices of the same kind, flavor, gate, body, length, class and
/// source/drain pair, so every output device has the key of an input device
/// and every input device's key survives.
pub proof fn lemma_parallel_keeps_keys(s: Seq<Device>,
    k: (DeviceKind, DeviceFlavor, u32, u32, i32, Option<Seq<char>>, u32, u32),
    e: (DeviceKind, DeviceFlavor, u32, u32, Option<Seq<char>>))
    ensures
        has_par_key(parallel_spec(s), k) <==> has_par_key(s, k),
        has_drive(parallel_spec(s), e) <==> has_drive(s, e),
    decreases s.len(),
{
    if s.len() > 0 {
        let init = s.drop_last();
        lemma_parallel_keeps_keys(init, k, e);
        lemma_par_step_keys(parallel_spec(init), s.last(), k, e);
        if has_par_key(init, k) {
            let i = choose|i: int| 0 <= i < init.len() && par_key(#[trigger] init[i]) == k;
            assert(s[i] == init[i]);
        }
        if has_par_key(s, k) {
            let i = choose|i: int| 0 <= i < s.len() && par_key(#[trigger] s[i]) == k;
            if i < init.len() { assert(init[i] == s[i]); }
        }
        if has_drive(init, e) {
            let i = choose|i: int| 0 <= i < init.len() && drive_key(#[trigger] init[i]) == e;
            assert(s[i] == init[i]);
        }
        if has_drive(s, e) {
            let i = choose|i: int| 0 <= i < s.len() && drive_key(#[trigger] s[i]) == e;
            if i < init.len() { assert(init[i] == s[i]); }
        }
    }
}

/// A series merge keeps exactly the kinds, flavors, gates, bodies and
/// classes of its input: it merges two devices that agree on all of them.
pub proof fn lemma_series_keeps_drives(ext: ExtractedNetlist, devs: Seq<Device>, protected: Seq<u32>, n: u32,
    e: (DeviceKind, DeviceFlavor, u32, u32, Option<Seq<char>>))
    requires
        series_ok(ext, devs, protected, n),
    ensures
        has_drive(series_result(devs, n), e) <==> has_drive(devs, e),
{
    lemma_incidence_bounds(devs, n, devs.len() as int);
    let inc = incidence(devs, n, devs.len() as int);
    let (i, j) = (inc[0], inc[1]);
    let a = devs[i];
    let lo = if i < j { i } else { j };
    let hi = if i < j { j } else { i };
    let rest = devs.remove(hi).remove(lo);
    let r = series_result(devs, n);
    assert(r == rest.push(Device { source: other_sd(a, n)->0, drain: other_sd(devs[j], n)->0, l: (a.l + devs[j].l) as i32, ..a }));
    assert(drive_key(r[rest.len() as int]) == drive_key(a));
    assert(drive_key(devs[j]) == drive_key(a));
    assert forall|k: int| 0 <= k < rest.len() implies #[trigger] rest[k] == devs[if k < lo { k } else if k + 1 < hi { k + 1 } else { k + 2 }] by {
        let t = devs.remove(hi);
        if k < lo {
            assert(rest[k] == t[k]);
        } else {
            assert(rest[k] == t[k + 1]);
        }
    }
    if has_drive(r, e) {
        let k = choose|k: int| 0 <= k < r.len() && drive_key(#[trigger] r[k]) == e;
        if k < rest.len() {
            let m = if k < lo { k } else if k + 1 < hi { k + 1 } else { k + 2 };
            assert(rest[k] == devs[m]);
            assert(drive_key(devs[m]) == e);
        } else {
            assert(drive_key(a) == e);
        }
    }
    if has_drive(devs, e) {
        let m = choose|m: int| 0 <= m < devs.len() && drive_key(#[trigger] devs[m]) == e;
        if m == lo || m == hi {
            assert(drive_key(r[rest.len() as int]) == e);
        } else {
            let k = if m < lo { m } else if m < hi { m - 1 } else { m - 2 };
            assert(rest[k] == devs[m]);
            assert(r[k] == rest[k]);
        }
    }
}

/// Reduction keeps exactly the kinds, flavors, gates, bodies and classes of
/// its input: for each such combination, some reduced device has it exactly
/// when some input device has it.
pub proof fn lemma_reduce_keeps_drives(ext: ExtractedNetlist, devs: Seq<Device>, protected: Seq<u32>,
    e: (DeviceKind, DeviceFlavor, u32, u32, Option<Seq<char>>))
    ensures
        has_drive(reduce_spec(ext, devs, protected), e) <==> has_drive(devs, e),
    decreases devs.len(),
{
    let p = parallel_spec(devs);
    lemma_parallel_keeps_keys(devs, arbitrary(), e);
    lemma_parallel_len(devs);
    lemma_first_series_net(ext, p, protected);
    match first_series_net(ext, p, protected) {
        Some(n) => {
            lemma_series_result_len(ext, p, protected, n);
            lemma_series_keeps_drives(ext, p, protected, n, e);
            lemma_reduce_keeps_drives(ext, series_result(p, n), protected, e);
        },
        None => {
            if p.len() < devs.len() {
                lemma_reduce_keeps_drives(ext, p, protected, e);
            }
        },
    }
}

/// Total width of the devices of `s` with parallel key `k`.
pub open spec fn key_width(s: Seq<Device>, k: (DeviceKind, DeviceFlavor, u32, u32, i32, Option<Seq<char>>, u32, u32)) -> int
    decreases s.len(),
{
    if s.len() == 0 {
        0
    } else {
        key_width(s.drop_last(), k) + if par_key(s.last()) == k { s.last().w as int } else { 0 }
    }
}

proof fn lemma_key_width_push(s: Seq<Device>, d: Device, k: (DeviceKind, DeviceFlavor, u32, u32, i32, Option<Seq<char>>, u32, u32))
    ensures
        key_width(s.push(d), k) == key_width(s, k) + if par_key(d) == k { d.w as int } else { 0 },
{
    assert(s.push(d).drop_last() =~= s);
}

proof fn lemma_key_width_update(s: Seq<Device>, j: int, d: Device, k: (DeviceKind, DeviceFlavor, u32, u32, i32, Option<Seq<char>>, u32, u32))
    requires
        0 <= j < s.len(),
        par_key(d) == par_key(s[j]),
    ensures
        key_width(s.update(j, d), k) == key_width(s, k) + if par_key(d) == k { d.w - s[j].w } else { 0 },
    decreases s.len(),
{
    let t = s.update(j, d);
    if j == s.len() - 1 {
        assert(t.drop_last() =~= s.drop_last());
    } else {
        assert(t.drop_last() =~= s.drop_last().update(j, d));
        lemma_key_width_update(s.drop_last(), j, d, k);
    }
}

/// Parallel reduction keeps, for every key, the total width of the devices
/// with that key: merged devices add their widths.
pub proof fn lemma_parallel_keeps_width(s: Seq<Device>, k: (DeviceKind, DeviceFlavor, u32, u32, i32, Option<Seq<char>>, u32, u32))
    ensures
        key_width(parallel_spec(s), k) == key_width(s, k),
    decreases s.len(),
{
    if s.len() > 0 {
        let init = s.drop_last();
        lemma_parallel_keeps_width(init, k);
        let out = parallel_spec(init);
        let d0 = s.last();
        let d = norm(d0);
        assert(par_key(d) == par_key(d0) && d.w == d0.w);
        lemma_last_key_range(out, d, out.len() as int);
        lemma_last_key_same(out, d, out.len() as int);
        match last_key_index(out, d, out.len() as int) {
            Some(j) => {
                if i32::MIN <= out[j].w + d.w <= i32::MAX {
                    let nd = Device { w: (out[j].w + d.w) as i32, ..out[j] };
                    assert(par_key(nd) == par_key(out[j]));
                    lemma_key_width_update(out, j, nd, k);
                } else {
                    lemma_key_width_push(out, d, k);
                }
            },
            None => {
                lemma_key_width_push(out, d, k);
            },
        }
    }
}

} // verus!
