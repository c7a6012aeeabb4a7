//! Interleaving: each lane codes its own symbols exactly as a one-lane coder
//! would, and the payload merges the lanes' written words by symbol index.
use vstd::prelude::*;

use crate::format::{be_bytes, carries, den_pre, is_virtual, lanes_ok, num_in, payload, word};
use crate::model::Symbol;

verus! {

/// How many of the indices `0 .. n` fall in lane `lane`.
pub open spec fn lane_len(n: int, lanes: int, lane: int) -> int {
    if n <= lane {
        0
    } else {
        (n - 1 - lane) / lanes + 1
    }
}

/// The symbols of lane `lane`, in order: indices `lane`, `lane + lanes`, ...
pub open spec fn lane_symbols(syms: Seq<Symbol>, lanes: nat, lane: int) -> Seq<Symbol> {
    Seq::new(
        lane_len(syms.len() as int, lanes as int, lane) as nat,
        |m: int| syms[lane + lanes * m],
    )
}

proof fn lemma_lane_len(n: int, lanes: int, lane: int, m: int)
    requires
        lanes > 0,
        0 <= lane < lanes,
        0 <= n,
        m >= 0,
    ensures
        lane_len(n, lanes, lane) >= 0,
        m < lane_len(n, lanes, lane) <==> lane + lanes * m < n,
{
    if n > lane {
        let x = n - 1 - lane;
        vstd::arithmetic::div_mod::lemma_fundamental_div_mod(x, lanes);
        vstd::arithmetic::div_mod::lemma_mod_bound(x, lanes);
        let q = x / lanes;
        assert(q >= 0) by (nonlinear_arith)
            requires
                x == lanes * q + x % lanes,
                x >= 0,
                0 <= x % lanes < lanes,
        ;
        assert(m <= q <==> lanes * m <= x) by (nonlinear_arith)
            requires
                x == lanes * q + x % lanes,
                0 <= x % lanes < lanes,
                lanes > 0,
        ;
    } else {
        assert(lanes * m >= 0) by (nonlinear_arith)
            requires
                lanes > 0,
                m >= 0,
        ;
    }
}

proof fn lemma_step_back(lanes: int, lane: int, m: int)
    ensures
        lane + lanes * m - lanes == lane + lanes * (m - 1),
        lane + lanes * m + lanes == lane + lanes * (m + 1),
{
    assert(lanes * m - lanes == lanes * (m - 1)) by (nonlinear_arith);
    assert(lanes * m + lanes == lanes * (m + 1)) by (nonlinear_arith);
}

proof fn lemma_lane_index(lanes: int, lane: int, m: int)
    requires
        lanes > 0,
        0 <= lane < lanes,
    ensures
        m >= 0 <==> lane + lanes * m >= 0,
        m >= 1 <==> lane + lanes * m >= lanes,
{
    if m >= 1 {
        assert(lanes * m >= lanes) by (nonlinear_arith)
            requires
                lanes > 0,
                m >= 1,
        ;
    } else if m >= 0 {
        assert(lanes * m == 0) by (nonlinear_arith)
            requires
                m == 0,
        ;
    } else {
        assert(lanes * m <= -lanes) by (nonlinear_arith)
            requires
                lanes > 0,
                m <= -1,
        ;
    }
}

/// The denominators of a lane do not depend on the other lanes.
proof fn lemma_den_lane(syms: Seq<Symbol>, delay: nat, lanes: nat, lane: int, m: int)
    requires
        lanes > 0,
        0 <= lane < lanes,
        m >= 0,
        lane + lanes * m < syms.len(),
    ensures
        den_pre(syms, delay, lanes, lane + lanes * m) == den_pre(
            lane_symbols(syms, lanes, lane),
            delay,
            1,
            m,
        ),
    decreases m,
{
    let sub = lane_symbols(syms, lanes, lane);
    let l = lanes as int;
    lemma_lane_len(syms.len() as int, l, lane, m);
    lemma_lane_index(l, lane, m);
    lemma_step_back(l, lane, m);
    assert(sub[m] == syms[lane + l * m]);
    if m >= 1 {
        lemma_den_lane(syms, delay, lanes, lane, m - 1);
    }
}

/// The numerators of a lane do not depend on the other lanes.
proof fn lemma_num_lane(syms: Seq<Symbol>, delay: nat, lanes: nat, lane: int, m: int)
    requires
        lanes > 0,
        0 <= lane < lanes,
        m >= -1,
        lane + lanes * m < syms.len(),
    ensures
        num_in(syms, delay, lanes, lane + lanes * m) == num_in(
            lane_symbols(syms, lanes, lane),
            delay,
            1,
            m,
        ),
        carries(syms, delay, lanes, lane + lanes * m) == carries(
            lane_symbols(syms, lanes, lane),
            delay,
            1,
            m,
        ),
    decreases syms.len() - (lane + lanes * m),
{
    let sub = lane_symbols(syms, lanes, lane);
    let l = lanes as int;
    let j = lane + l * m;
    lemma_step_back(l, lane, m);
    lemma_lane_index(l, lane, m);
    lemma_lane_len(syms.len() as int, l, lane, m + 1);
    if m >= 0 {
        lemma_lane_len(syms.len() as int, l, lane, m);
        lemma_den_lane(syms, delay, lanes, lane, m);
    }
    if j + l < syms.len() {
        lemma_num_lane(syms, delay, lanes, lane, m + 1);
        assert(sub[m + 1] == syms[j + l]);
    }
}

/// Interleaving changes no lane's coding: symbol `i` is coded in lane
/// `i % lanes` exactly as symbol `i / lanes` of that lane's symbols is coded by
/// a one-lane coder, with the same code word and the same choice between
/// writing it and carrying it. The payload is the written words in symbol
/// order, so it is the lanes' written words merged by symbol index.
pub proof fn law_lanes_code_independently(syms: Seq<Symbol>, delay: nat, lanes: nat, i: int)
    requires
        lanes_ok(lanes as int),
        0 <= i < syms.len(),
    ensures
        ({
            let lane = i % (lanes as int);
            let m = i / (lanes as int);
            let sub = lane_symbols(syms, lanes, lane);
            &&& 0 <= m < sub.len()
            &&& sub[m] == syms[i]
            &&& word(syms, delay, lanes, i) == word(sub, delay, 1, m)
            &&& is_virtual(syms, delay, lanes, i) == is_virtual(sub, delay, 1, m)
        }),
{
    let l = lanes as int;
    let lane = i % l;
    let m = i / l;
    vstd::arithmetic::div_mod::lemma_fundamental_div_mod(i, l);
    vstd::arithmetic::div_mod::lemma_mod_bound(i, l);
    assert(i == lane + l * m);
    lemma_lane_index(l, lane, m);
    lemma_lane_len(syms.len() as int, l, lane, m);
    lemma_num_lane(syms, delay, lanes, lane, m);
    lemma_step_back(l, lane, m);
    lemma_num_lane(syms, delay, lanes, lane, m - 1);
}

/// The bytes that lane `lane` writes while the first `k` symbols are coded:
/// its written code words, in symbol order.
pub open spec fn lane_written(syms: Seq<Symbol>, delay: nat, lanes: nat, lane: int, k: int) -> Seq<u8>
    decreases k,
{
    if k <= 0 {
        Seq::empty()
    } else if (k - 1) % (lanes as int) == lane && !is_virtual(syms, delay, lanes, k - 1) {
        lane_written(syms, delay, lanes, lane, k - 1) + be_bytes(word(syms, delay, lanes, k - 1))
    } else {
        lane_written(syms, delay, lanes, lane, k - 1)
    }
}

/// How many bytes lanes `0 .. m` write while the first `k` symbols are coded.
pub open spec fn lanes_written_len(syms: Seq<Symbol>, delay: nat, lanes: nat, k: int, m: int) -> nat
    decreases m,
{
    if m <= 0 {
        0
    } else {
        lanes_written_len(syms, delay, lanes, k, m - 1) + lane_written(
            syms,
            delay,
            lanes,
            m - 1,
            k,
        ).len()
    }
}

/// One more index adds one to the count of its own lane only; and the index
/// is that lane's next position.
proof fn lemma_lane_len_step(k: int, lanes: int, lane: int)
    requires
        lanes > 0,
        0 <= lane < lanes,
        k >= 0,
    ensures
        k % lanes == lane ==> k / lanes == lane_len(k, lanes, lane) && lane_len(k + 1, lanes, lane)
            == lane_len(k, lanes, lane) + 1,
        k % lanes != lane ==> lane_len(k + 1, lanes, lane) == lane_len(k, lanes, lane),
{
    let c = lane_len(k, lanes, lane);
    let c1 = lane_len(k + 1, lanes, lane);
    lemma_lane_len(k, lanes, lane, 0);
    lemma_lane_len(k + 1, lanes, lane, 0);
    vstd::arithmetic::div_mod::lemma_fundamental_div_mod(k, lanes);
    vstd::arithmetic::div_mod::lemma_mod_bound(k, lanes);
    let q = k / lanes;
    if k % lanes == lane {
        assert(k == lane + lanes * q);
        lemma_lane_index(lanes, lane, q);
        lemma_lane_len(k, lanes, lane, q);
        lemma_lane_len(k + 1, lanes, lane, q);
        lemma_lane_len(k + 1, lanes, lane, q + 1);
        lemma_step_back(lanes, lane, q);
        if c < q {
            lemma_lane_len(k, lanes, lane, c);
            assert(lanes * c < lanes * q) by (nonlinear_arith)
                requires
                    c < q,
                    lanes > 0,
            ;
        }
        if c1 < q + 1 {
            lemma_lane_len(k + 1, lanes, lane, c1);
            assert(lanes * c1 <= lanes * q) by (nonlinear_arith)
                requires
                    c1 <= q,
                    lanes > 0,
            ;
        }
    } else {
        lemma_lane_len(k, lanes, lane, c);
        lemma_lane_len(k + 1, lanes, lane, c);
        if lane + lanes * c == k {
            vstd::arithmetic::div_mod::lemma_fundamental_div_mod_converse(k, lanes, c, lane);
        }
        if c > 0 {
            lemma_lane_len(k, lanes, lane, c - 1);
            lemma_lane_len(k + 1, lanes, lane, c - 1);
        }
        if c1 > c {
            lemma_lane_len(k + 1, lanes, lane, c);
        }
    }
}

proof fn lemma_lane_written(syms: Seq<Symbol>, delay: nat, lanes: nat, lane: int, k: int)
    requires
        lanes_ok(lanes as int),
        0 <= lane < lanes,
        0 <= k <= syms.len(),
    ensures
        lane_written(syms, delay, lanes, lane, k) == payload(
            lane_symbols(syms, lanes, lane),
            delay,
            1,
            lane_len(k, lanes as int, lane),
        ),
    decreases k,
{
    if k > 0 {
        let i = k - 1;
        let l = lanes as int;
        lemma_lane_written(syms, delay, lanes, lane, i);
        lemma_lane_len_step(i, l, lane);
        lemma_lane_len(i, l, lane, 0);
        if i % l == lane {
            law_lanes_code_independently(syms, delay, lanes, i);
        }
    }
}

proof fn lemma_lanes_written_len_step(syms: Seq<Symbol>, delay: nat, lanes: nat, k: int, m: int)
    requires
        lanes > 0,
        0 <= k,
        0 <= m <= lanes,
    ensures
        lanes_written_len(syms, delay, lanes, k + 1, m) == lanes_written_len(
            syms,
            delay,
            lanes,
            k,
            m,
        ) + (if k % (lanes as int) < m && !is_virtual(syms, delay, lanes, k) {
            2int
        } else {
            0int
        }),
    decreases m,
{
    vstd::arithmetic::div_mod::lemma_mod_bound(k, lanes as int);
    if m > 0 {
        lemma_lanes_written_len_step(syms, delay, lanes, k, m - 1);
    }
}

proof fn lemma_payload_len_is_total(syms: Seq<Symbol>, delay: nat, lanes: nat, k: int)
    requires
        lanes > 0,
        0 <= k,
    ensures
        payload(syms, delay, lanes, k).len() == lanes_written_len(
            syms,
            delay,
            lanes,
            k,
            lanes as int,
        ),
    decreases k,
{
    if k > 0 {
        lemma_payload_len_is_total(syms, delay, lanes, k - 1);
        lemma_lanes_written_len_step(syms, delay, lanes, k - 1, lanes as int);
        vstd::arithmetic::div_mod::lemma_mod_bound(k - 1, lanes as int);
    } else {
        lemma_lanes_zero(syms, delay, lanes, lanes as int);
    }
}

proof fn lemma_lanes_zero(syms: Seq<Symbol>, delay: nat, lanes: nat, m: int)
    ensures
        lanes_written_len(syms, delay, lanes, 0, m) == 0,
    decreases m,
{
    if m > 0 {
        lemma_lanes_zero(syms, delay, lanes, m - 1);
    }
}

/// An interleaved payload is the lanes' one-lane payloads merged by symbol
/// index: what lane `lane` writes, taken in symbol order, is exactly the
/// payload a one-lane coder makes of that lane's symbols, and the payload's
/// length is the sum of the lanes' lengths. (Each symbol's bytes go to the
/// payload and to its own lane's bytes at once, as `payload` and
/// `lane_written` are defined.)
pub proof fn law_interleaved_payload_merges_lanes(
    syms: Seq<Symbol>,
    delay: nat,
    lanes: nat,
    lane: int,
)
    requires
        lanes_ok(lanes as int),
        0 <= lane < lanes,
    ensures
        lane_written(syms, delay, lanes, lane, syms.len() as int) == payload(
            lane_symbols(syms, lanes, lane),
            delay,
            1,
            lane_symbols(syms, lanes, lane).len() as int,
        ),
        payload(syms, delay, lanes, syms.len() as int).len() == lanes_written_len(
            syms,
            delay,
            lanes,
            syms.len() as int,
            lanes as int,
        ),
{
    lemma_lane_len(syms.len() as int, lanes as int, lane, 0);
    lemma_lane_written(syms, delay, lanes, lane, syms.len() as int);
    lemma_payload_len_is_total(syms, delay, lanes, syms.len() as int);
}

} // verus!
