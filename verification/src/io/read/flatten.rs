//! Integer steps of flattening: the pitch of an AREF, the origin of one of its
//! copies, and refusing elements that keep unhandled records.
use vstd::prelude::*;
use crate::text::{decimal, push_decimal, push_signed, signed_decimal};
use super::gds::{GdsElementMeta, LayoutError, LayoutErrorKind};

verus! {

/// The pitch of an AREF along one axis: the distance from `origin` to
/// `endpoint` divided by `count`, which must divide it exactly and give an
/// `i32`.
pub fn exact_pitch(endpoint: i32, origin: i32, count: u16, axis: &str) -> (r: Result<i32, LayoutError>)
    requires
        count > 0,
    ensures
        ({
            let delta = endpoint - origin;
            match r {
                Ok(p) => delta % (count as int) == 0 && p * count == delta,
                Err(e) => {
                    &&& e.offset is None
                    &&& if delta % (count as int) != 0 {
                        &&& e.kind == LayoutErrorKind::NonIntegralTransform
                        &&& e.message@ == "AREF "@ + axis@ + " pitch "@ + signed_decimal(delta) + "/"@
                            + decimal(count as nat) + " is non-integral"@
                    } else {
                        &&& e.kind == LayoutErrorKind::ArithmeticOverflow
                        &&& e.message@ == "AREF pitch outside i32"@
                        &&& !(i32::MIN <= delta / (count as int) <= i32::MAX)
                    }
                },
            }
        }),
{
    let delta: i64 = endpoint as i64 - origin as i64;
    let c: i64 = count as i64;
    let mag: u64 = if delta < 0 { (-delta) as u64 } else { delta as u64 };
    let q: u64 = mag / (count as u64);
    let rem: u64 = mag % (count as u64);
    proof {
        lemma_signed_division(delta as int, count as int, mag as int, q as int, rem as int);
    }
    if rem != 0 {
        let mut m = String::from_str("AREF ");
        m.append(axis);
        m.append(" pitch ");
        push_signed(&mut m, delta);
        m.append("/");
        push_decimal(&mut m, count as u64);
        m.append(" is non-integral");
        return Err(LayoutError::layout(LayoutErrorKind::NonIntegralTransform, m));
    }
    if q > 0x8000_0000u64 || (delta >= 0 && q > 0x7fff_ffffu64) {
        return Err(LayoutError::layout(LayoutErrorKind::ArithmeticOverflow, String::from_str("AREF pitch outside i32")));
    }
    let p: i64 = if delta < 0 { -(q as i64) } else { q as i64 };
    Ok(p as i32)
}

/// Facts about `delta` divided by a positive `count`, from the division of
/// its magnitude.
proof fn lemma_signed_division(delta: int, count: int, mag: int, q: int, rem: int)
    requires
        count > 0,
        mag == if delta < 0 { -delta } else { delta },
        q == mag / count,
        rem == mag % count,
    ensures
        (delta % count == 0) == (rem == 0),
        rem == 0 ==> delta / count == if delta < 0 { -q } else { q },
        rem == 0 ==> (if delta < 0 { -q } else { q }) * count == delta,
{
    assert(mag == q * count + rem && 0 <= rem < count) by (nonlinear_arith)
        requires
            count > 0,
            q == mag / count,
            rem == mag % count,
            mag >= 0,
    ;
    if delta < 0 {
        if rem == 0 {
            assert(delta == (-q) * count) by (nonlinear_arith)
                requires
                    mag == q * count,
                    delta == -mag,
            ;
            assert(delta % count == 0 && delta / count == -q) by (nonlinear_arith)
                requires
                    delta == (-q) * count,
                    count > 0,
            ;
        } else {
            assert(delta % count != 0) by (nonlinear_arith)
                requires
                    delta == -(q * count + rem),
                    0 < rem < count,
                    count > 0,
            {
                assert(delta == (-q - 1) * count + (count - rem));
                vstd::arithmetic::div_mod::lemma_fundamental_div_mod_converse(delta, count, -q - 1, count - rem);
            }
        }
    } else {
        if rem == 0 {
            assert(delta % count == 0 && delta / count == q && q * count == delta) by (nonlinear_arith)
                requires
                    delta == q * count,
                    count > 0,
            ;
        } else {
            assert(delta % count == rem) by (nonlinear_arith)
                requires
                    delta == q * count + rem,
                    0 < rem < count,
                    count > 0,
            {
                vstd::arithmetic::div_mod::lemma_fundamental_div_mod_converse(delta, count, q, rem);
            }
        }
    }
}

/// The origin of the AREF copy in column `ai` and row `bi`:
/// `origin + a * ai + b * bi`, which must be an `i32`.
pub fn checked_array_coordinate(origin: i32, a: i32, ai: u16, b: i32, bi: u16) -> (r: Result<i32, LayoutError>)
    ensures
        ({
            let v = origin + a * ai + b * bi;
            match r {
                Ok(c) => c == v,
                Err(e) => {
                    &&& !(i32::MIN <= v <= i32::MAX)
                    &&& e.kind == LayoutErrorKind::ArithmeticOverflow
                    &&& e.offset is None
                    &&& e.message@ == "AREF origin outside i32"@
                },
            }
        }),
{
    proof {
        assert(-0x8000_0000 * 0xffff <= a * ai <= 0x7fff_ffff * 0xffff) by (nonlinear_arith)
            requires
                -0x8000_0000 <= a <= 0x7fff_ffff,
                0 <= ai <= 0xffff,
        ;
        assert(-0x8000_0000 * 0xffff <= b * bi <= 0x7fff_ffff * 0xffff) by (nonlinear_arith)
            requires
                -0x8000_0000 <= b <= 0x7fff_ffff,
                0 <= bi <= 0xffff,
        ;
    }
    let value: i64 = origin as i64 + (a as i64) * (ai as i64) + (b as i64) * (bi as i64);
    if value < i32::MIN as i64 || value > i32::MAX as i64 {
        return Err(LayoutError::layout(LayoutErrorKind::ArithmeticOverflow, String::from_str("AREF origin outside i32")));
    }
    Ok(value as i32)
}

/// Refuses an element that keeps unhandled records; `kind` names the element
/// kind in the message.
pub fn ensure_meta_supported(meta: &GdsElementMeta, kind: &str) -> (r: Result<(), LayoutError>)
    ensures
        r is Ok <==> meta.unhandled_records@.len() == 0,
        r matches Err(e) ==> e.kind == LayoutErrorKind::Unsupported && e.offset is None
            && e.message@ == kind@ + " contains unhandled records"@,
{
    if meta.unhandled_records.len() == 0 {
        Ok(())
    } else {
        let mut m = String::from_str(kind);
        m.append(" contains unhandled records");
        Err(LayoutError::layout(LayoutErrorKind::Unsupported, m))
    }
}

} // verus!
