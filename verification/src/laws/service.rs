//! What the service decides: risks, responses, targets and queries before it serves.

use vstd::prelude::*;
#[allow(unused_imports)]
use vstd::arithmetic::div_mod::{lemma_fundamental_div_mod, lemma_fundamental_div_mod_converse};
#[allow(unused_imports)]
use vstd::arithmetic::power::pow;
#[allow(unused_imports)]
use vstd::arithmetic::power2::pow2;

#[allow(unused_imports)]
use crate::balancer::{target_of, CONNECT_ATTEMPTS, RETRY_MILLIS};
use crate::binary32::Binary32;
#[allow(unused_imports)]
use crate::index::quantize::{quantized, quantized_vector, QUANT_SCALE};
#[allow(unused_imports)]
use crate::laws::numbers::law_rounds_to_nearest_integer;
#[allow(unused_imports)]
use crate::models::{risk_table, DEFAULT_RISK_BITS, DENY_BITS};
#[allow(unused_imports)]
use crate::responses::{fraud_response, response_for, Response};
#[allow(unused_imports)]
use crate::text::{decimal, digit, hex};
#[allow(unused_imports)]
use crate::warmup::{state_after, warmup_feature, WARMUP_SEED};

verus! {

// ── Risks ────────────────────────────────────────────────────────────────────

/// The risk of a code is that of the last entry with the code, whatever the others are.
pub proof fn law_last_entry_tells_the_risk(
    entries: Seq<(String, Binary32)>,
    code: Seq<char>,
    i: int,
)
    requires
        -1 <= i < entries.len(),
        i >= 0 ==> entries[i].0@ == code,
        forall|j: int| i < j < entries.len() ==> (#[trigger] entries[j]).0@ != code,
    ensures
        risk_table(entries).contains_key(code) <==> i >= 0,
        i >= 0 ==> risk_table(entries)[code] == entries[i].1,
    decreases entries.len(),
{
    if entries.len() > 0 && i < entries.len() - 1 {
        let h = entries.drop_last();
        assert(entries[entries.len() - 1].0@ != code);
        assert forall|j: int| i < j < h.len() implies (#[trigger] h[j]).0@ != code by {
            assert(h[j] == entries[j]);
        }
        law_last_entry_tells_the_risk(h, code, i);
    }
}

// ── Scores ───────────────────────────────────────────────────────────────────

/// The response for a score tells the number of fifths that is nearest to it: five times the
/// score, to the nearest whole number from zero to five, a half going up. A score that is not a
/// finite number gets the response of zero.
pub proof fn law_response_is_the_nearest(score: Binary32, n: int)
    requires
        0 <= n <= 5,
    ensures
        ({
            let five = score.mul_spec(Binary32::of_int(5));
            let unit = pow2(149) as int;
            let v = 2 * five.value();
            &&& score.bits % 0x8000_0000 >= 0x7F80_0000 ==> response_for(score) == Response::Fraud0
            &&& score.bits % 0x8000_0000 < 0x7F80_0000 && five.bits == 0x7F80_0000 ==> response_for(
                score,
            ) == Response::Fraud5
            &&& score.bits % 0x8000_0000 < 0x7F80_0000 && five.bits == 0xFF80_0000 ==> response_for(
                score,
            ) == Response::Fraud0
            &&& score.bits % 0x8000_0000 < 0x7F80_0000 && five.bits % 0x8000_0000 < 0x7F80_0000
                ==> {
                &&& v < unit ==> response_for(score) == fraud_response(0)
                &&& v >= 9 * unit ==> response_for(score) == fraud_response(5)
                &&& v >= 0 && (2 * n - 1) * unit <= v < (2 * n + 1) * unit ==> response_for(score)
                    == fraud_response(n)
            }
        }),
{
    let five = score.mul_spec(Binary32::of_int(5));
    let unit = pow2(149) as int;
    vstd::arithmetic::power2::lemma_pow2_pos(149);
    if score.is_finite_spec() && five.is_finite_spec() {
        law_rounds_to_nearest_integer(five, 0, 5, n);
        law_rounds_to_nearest_integer(five, 0, 5, 0);
        law_rounds_to_nearest_integer(five, 0, 5, 5);
        assert((2 * 0 - 1) * unit == -unit);
        assert((2 * 0 + 1) * unit == unit);
        assert((2 * 5 - 1) * unit == 9 * unit);
        assert((2 * 5 + 1) * unit == 11 * unit);
    }
}

/// A feature is stored as the whole number nearest to ten thousand times it, a half going away
/// from zero, within 16 bits; what is not a number is stored as zero.
pub proof fn law_stored_feature_is_the_nearest(v: Binary32, n: int)
    requires
        -32768 <= n <= 32767,
    ensures
        ({
            let x = v.mul_spec(Binary32::of_int(10000));
            let unit = pow2(149) as int;
            let twice = 2 * x.value();
            &&& x.bits % 0x8000_0000 > 0x7F80_0000 ==> quantized(v) == 0
            &&& x.bits == 0x7F80_0000 ==> quantized(v) == 32767
            &&& x.bits == 0xFF80_0000 ==> quantized(v) == -32768
            &&& x.bits % 0x8000_0000 < 0x7F80_0000 ==> {
                &&& twice >= 65535 * unit ==> quantized(v) == 32767
                &&& twice <= -65537 * unit ==> quantized(v) == -32768
                &&& twice >= 0 && (2 * n - 1) * unit <= twice < (2 * n + 1) * unit ==> quantized(v)
                    == n
                &&& twice <= 0 && (2 * n - 1) * unit < twice <= (2 * n + 1) * unit ==> quantized(v)
                    == n
            }
        }),
{
    let x = v.mul_spec(Binary32::of_int(10000));
    let unit = pow2(149) as int;
    if x.is_finite_spec() {
        law_rounds_to_nearest_integer(x, -32768, 32767, n);
        assert((2 * 32767 + 1) * unit == 65535 * unit);
        assert((2 * -32768 - 1) * unit == -65537 * unit);
    }
}

// ── Numbers as text ──────────────────────────────────────────────────────────

/// The value of a digit in lower case.
pub open spec fn digit_value(c: char) -> int {
    if '0' <= c <= '9' {
        c as int - '0' as int
    } else {
        c as int - 'a' as int + 10
    }
}

/// The decimal text of a number is made of digits that stand for it, and does not start with a
/// zero but for zero itself.
pub proof fn law_decimal_text_stands_for_its_number(n: nat)
    ensures
        decimal(n).len() > 0,
        forall|i: int| 0 <= i < decimal(n).len() ==> '0' <= #[trigger] decimal(n)[i] <= '9',
        decimal(n).fold_left(0int, |v: int, c: char| 10 * v + (c as int - '0' as int)) == n,
        decimal(n)[0] == '0' ==> n == 0,
        n == 0 ==> decimal(n).len() == 1,
    decreases n,
{
    let f = |v: int, c: char| 10 * v + (c as int - '0' as int);
    let t = decimal(n);
    if n < 10 {
        assert(t.drop_last() =~= seq![]);
        assert(t.drop_last().fold_left(0int, f) == 0);
    } else {
        law_decimal_text_stands_for_its_number(n / 10);
        assert(t.drop_last() =~= decimal(n / 10));
        assert(t[0] == decimal(n / 10)[0]);
        assert forall|i: int| 0 <= i < t.len() implies '0' <= #[trigger] t[i] <= '9' by {
            if i < t.len() - 1 {
                assert(t[i] == decimal(n / 10)[i]);
            }
        }
    }
}

/// The hexadecimal text of a number has the width that was asked for, and its digits, in lower
/// case, stand for the number but for what does not fit.
pub proof fn law_hexadecimal_text_stands_for_its_number(n: nat, width: nat)
    ensures
        hex(n, width).len() == width,
        forall|i: int|
            0 <= i < width ==> '0' <= (#[trigger] hex(n, width)[i]) <= '9' || 'a' <= hex(
                n,
                width,
            )[i] <= 'f',
        pow(16, width) > 0,
        hex(n, width).fold_left(0int, |v: int, c: char| 16 * v + digit_value(c)) == n as int % pow(
            16,
            width,
        ),
    decreases width,
{
    let f = |v: int, c: char| 16 * v + digit_value(c);
    let t = hex(n, width);
    reveal(pow);
    if width > 0 {
        let h = hex(n / 16, (width - 1) as nat);
        law_hexadecimal_text_stands_for_its_number(n / 16, (width - 1) as nat);
        assert(t.drop_last() =~= h);
        assert forall|i: int| 0 <= i < width implies '0' <= (#[trigger] t[i]) <= '9' || 'a' <= t[i]
            <= 'f' by {
            if i < width - 1 {
                assert(t[i] == h[i]);
            }
        }
        assert(digit_value(digit(n % 16)) == n % 16);
        let p = pow(16, (width - 1) as nat);
        assert(pow(16, width) == 16 * p);
        vstd::arithmetic::div_mod::lemma_mod_breakdown(n as int, 16, p);
    }
}

// ── Targets ──────────────────────────────────────────────────────────────────

/// The first client gets the first target, and each client gets the target behind that of the
/// client before, the first again after the last.
pub proof fn law_clients_go_round(n: int, targets: int)
    requires
        n >= 0,
        targets > 0,
    ensures
        target_of(0, targets) == 0,
        0 <= target_of(n, targets) < targets,
        target_of(n + 1, targets) == if target_of(n, targets) == targets - 1 {
            0
        } else {
            target_of(n, targets) + 1
        },
{
    let (q, r) = (n / targets, n % targets);
    lemma_fundamental_div_mod(n, targets);
    vstd::arithmetic::div_mod::lemma_mod_pos_bound(n, targets);
    lemma_fundamental_div_mod_converse(0, targets, 0, 0);
    if r == targets - 1 {
        assert(n + 1 == (q + 1) * targets + 0) by (nonlinear_arith)
            requires
                n == targets * q + r,
                r == targets - 1,
        ;
        lemma_fundamental_div_mod_converse(n + 1, targets, q + 1, 0);
    } else {
        assert(n + 1 == q * targets + (r + 1)) by (nonlinear_arith)
            requires
                n == targets * q + r,
        ;
        lemma_fundamental_div_mod_converse(n + 1, targets, q, r + 1);
    }
}

/// A control socket is tried 120 times, a quarter of a second apart: half a minute in all.
pub proof fn law_socket_is_waited_for()
    ensures
        CONNECT_ATTEMPTS == 120,
        RETRY_MILLIS == 250,
        CONNECT_ATTEMPTS * RETRY_MILLIS == 30_000,
{
}

// ── Warm-up ──────────────────────────────────────────────────────────────────

/// The generator starts from a fixed state, and goes on from where it stopped.
pub proof fn law_generator_goes_on(state: u32, a: nat, b: nat)
    ensures
        WARMUP_SEED == 0x1234_5678,
        state_after(state, 0) == state,
        state_after(state_after(state, a), b) == state_after(state, a + b),
    decreases b,
{
    if b > 0 {
        law_generator_goes_on(state, a, (b - 1) as nat);
        assert(state_after(state, (a + b - 1) as nat) == state_after(
            state_after(state, a),
            (b - 1) as nat,
        ));
    }
}

/// A step multiplies by 1664525 and adds 1013904223, modulo two to the power 32.
pub proof fn law_generator_steps(state: u32)
    ensures
        (1_664_525 * state + 1_013_904_223 - state_after(state, 1)) % 0x1_0000_0000 == 0,
{
    let n = state * 1_664_525 + 1_013_904_223;
    assert(state_after(state, 0) == state);
    assert(state_after(state, 1) == n % 0x1_0000_0000);
    assert((n - n % 0x1_0000_0000) % 0x1_0000_0000 == 0);
}

/// A warm-up query looks like one without a last transaction; each other feature is the next
/// state of the generator, its upper half mixed into the lower, as a share of the largest.
pub proof fn law_warmup_features_are_shares(state: u32, i: int)
    requires
        0 <= i < 14,
    ensures
        i == 5 || i == 6 ==> warmup_feature(state, i).bits == 0xBF80_0000,
        i != 5 && i != 6 ==> warmup_feature(state, i) == ({
            let s = state_after(state, (i + 1) as nat);
            Binary32::of_int((s ^ (s / 0x1_0000) as u32) as int).div_spec(
                Binary32::of_int(0xFFFF_FFFF),
            )
        }),
{
    let s = state_after(state, (i + 1) as nat);
    assert(s >> 16u32 == s / 0x1_0000) by (bit_vector);
}

// ── Constants ────────────────────────────────────────────────────────────────

/// A transaction is denied from three fifths on, an unknown merchant category has the risk of a
/// half, and features are stored in ten-thousandths.
pub proof fn law_limits_of_the_service(v: Seq<Binary32>, d: int)
    requires
        0 <= d < 14,
    ensures
        DENY_BITS == 0x3F19_999A,
        (Binary32 { bits: DENY_BITS }) == Binary32::of_int(3).div_spec(Binary32::of_int(5)),
        DEFAULT_RISK_BITS == 0x3F00_0000,
        QUANT_SCALE == 10_000,
        v.len() == 14 ==> quantized_vector(v).len() == 14 && quantized_vector(v)[d] == quantized(
            v[d],
        ),
{
    crate::binary32::lemma_fifth(3);
}

} // verus!
