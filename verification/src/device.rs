//! What a device computes from a dispatch, and that it is what the library computes itself.

use vstd::prelude::*;
use vstd::arithmetic::power2::*;
use crate::babybear::{Felt, P};
use crate::bits;
use crate::builder::SepticDigest;
use crate::chip::{Air, Chip};
use crate::compile;
use crate::dispatch;
use crate::dispatch::ChipDispatch;
use crate::ext;
use crate::ext::Ext;
use crate::ir;
use crate::lde::Coset;
use crate::lookup::InteractionScope;
use crate::matrix::Matrix;
use crate::program;
use crate::program::Window;
use crate::quotient;
use crate::quotient::Selectors;
use crate::ring;
use crate::ring::Ring;

verus! {

/// The row that holds point `i` of a domain of `2^log_n` points.
pub open spec fn place(bit_reversed: bool, log_n: nat, i: int) -> int {
    if bit_reversed {
        bits::bitrev(i as nat, log_n) as int
    } else {
        i
    }
}

/// Row `p` of a trace that is held as words.
pub open spec fn held_row(words: Seq<u32>, width: nat, p: int) -> Seq<Felt> {
    Seq::new(width, |c: int| program::from_monty(words[p * width + c]))
}

/// As [`held_row`]; a single zero where no trace is held.
pub open spec fn held_prep_row(d: ChipDispatch, p: int) -> Seq<Felt> {
    if d.prep@.len() == 0 {
        seq![Felt::zero_spec()]
    } else {
        held_row(d.prep@, d.prep_width as nat, p)
    }
}

/// A selector of point `i`.
pub open spec fn held_selector(d: ChipDispatch, i: int, k: int) -> Felt {
    program::from_monty(d.selectors@[4 * i + k])
}

/// What the program reads at point `i`.
pub open spec fn device_window(d: ChipDispatch, i: int) -> Window {
    let log_n = bits::log2(d.quotient_size as nat);
    let j = (i + d.next_step) % (d.quotient_size as int);
    let (p, q) = (place(d.bit_reversed, log_n, i), place(d.bit_reversed, log_n, j));
    Window {
        prep_local: held_prep_row(d, p),
        prep_next: held_prep_row(d, q),
        main_local: held_row(d.main@, d.main_width as nat, p),
        main_next: held_row(d.main@, d.main_width as nat, q),
        perm_local: held_row(d.perm@, d.perm_width as nat, p),
        perm_next: held_row(d.perm@, d.perm_width as nat, q),
        selectors: seq![held_selector(d, i, 0), held_selector(d, i, 1), held_selector(d, i, 2)],
    }
}

/// The result of the program at point `i`, times the inverse of the vanishing polynomial.
pub open spec fn device_value(d: ChipDispatch, i: int) -> Ext {
    let out = d.program.result(device_window(d, i));
    (Ext { c0: out[0], c1: out[1], c2: out[2], c3: out[3] }).times(
        ext::embed(held_selector(d, i, 3)),
    )
}

/// The elements that words stand for, four words each.
pub open spec fn decoded(words: Seq<u32>) -> Seq<Ext> {
    Seq::new(
        words.len() / 4,
        |i: int|
            Ext {
                c0: program::from_monty(words[4 * i]),
                c1: program::from_monty(words[4 * i + 1]),
                c2: program::from_monty(words[4 * i + 2]),
                c3: program::from_monty(words[4 * i + 3]),
            },
    )
}

/// Whether words are what running a dispatch leaves.
pub open spec fn runs(d: ChipDispatch, words: Seq<u32>) -> bool {
    &&& words.len() == 4 * d.quotient_size
    &&& forall|i: int|
        0 <= i < d.quotient_size ==> #[trigger] decoded(words)[i] == device_value(d, i)
}

/// Whether `held` has the rows of `mat`, each in its place, in canonical form.
pub open spec fn holds_rows(
    held: Matrix<Felt>,
    mat: Matrix<Felt>,
    bit_reversed: bool,
    log_n: nat,
) -> bool {
    &&& held.width == mat.width
    &&& 0 < held.width <= u32::MAX
    &&& held.rows() >= pow2(log_n)
    &&& forall|k: int| 0 <= k < held.values@.len() ==> (#[trigger] held.values@[k]).value < P
    &&& forall|i: int|
        0 <= i < pow2(log_n) ==> held.row(place(bit_reversed, log_n, i)) == #[trigger] mat.row(i)
}

/// Whether a dispatch holds the traces, of which each row is in its place.
pub open spec fn holds_traces(
    d: ChipDispatch,
    held_prep: Option<Matrix<Felt>>,
    held_main: Matrix<Felt>,
    held_perm: Matrix<Felt>,
    preprocessed: Option<Matrix<Felt>>,
    main: Matrix<Felt>,
    perm: Matrix<Felt>,
    log_n: nat,
) -> bool {
    &&& d.main@ == dispatch::raw_all(held_main.values@)
    &&& d.main_width == held_main.width as u32
    &&& holds_rows(held_main, main, d.bit_reversed, log_n)
    &&& d.perm@ == dispatch::raw_all(held_perm.values@)
    &&& d.perm_width == held_perm.width as u32
    &&& holds_rows(held_perm, perm, d.bit_reversed, log_n)
    &&& held_prep is Some <==> preprocessed is Some
    &&& match held_prep {
        Some(m) => {
            &&& d.prep@ == dispatch::raw_all(m.values@)
            &&& d.prep_width == m.width as u32
            &&& holds_rows(m, preprocessed->0, d.bit_reversed, log_n)
        },
        None => d.prep@.len() == 0,
    }
}

proof fn lemma_raw(a: Felt)
    requires
        a.value < P,
    ensures
        program::from_monty(dispatch::raw(a)) == a,
{
    ir::lemma_monty_round_trip(a.value as int);
}

proof fn lemma_place(bit_reversed: bool, log_n: nat, i: int)
    requires
        0 <= i < pow2(log_n),
    ensures
        0 <= place(bit_reversed, log_n, i) < pow2(log_n),
{
    bits::lemma_bitrev_bound(i as nat, log_n);
}

/// A row that is held as words is the row of the trace.
proof fn lemma_held_row(
    words: Seq<u32>,
    held: Matrix<Felt>,
    mat: Matrix<Felt>,
    bit_reversed: bool,
    log_n: nat,
    i: int,
)
    requires
        words == dispatch::raw_all(held.values@),
        holds_rows(held, mat, bit_reversed, log_n),
        0 <= i < pow2(log_n),
    ensures
        words.len() > 0,
        held_row(words, held.width as u32 as nat, place(bit_reversed, log_n, i)) == mat.row(i),
{
    let p = place(bit_reversed, log_n, i);
    lemma_place(bit_reversed, log_n, i);
    let row = held_row(words, held.width as u32 as nat, p);
    assert(held.row(p) == mat.row(i));
    held.lemma_index(p, 0);
    assert forall|c: int| 0 <= c < row.len() implies #[trigger] row[c] == held.row(p)[c] by {
        held.lemma_index(p, c);
        lemma_raw(held.values@[p * held.width + c]);
    }
    assert(row =~= held.row(p));
}

proof fn lemma_cancel(a: Felt, b: Felt, d: Felt, r: Felt)
    requires
        a.times(d) == b.times(d),
        d.times(r) == Felt::one_spec(),
        a.value < P,
        b.value < P,
    ensures
        a == b,
{
    Felt::law_mul_assoc(a, d, r);
    Felt::law_mul_assoc(b, d, r);
    ring::lemma_mul_one(a);
    ring::lemma_mul_one(b);
    assert(ring::reduced(a) == a && ring::reduced(b) == b);
}

/// The selectors of a point are determined.
proof fn lemma_selectors_determined(a: Selectors, b: Selectors, trace: Coset, x: Felt, i: int)
    requires
        quotient::selects(a, trace, x, i),
        quotient::selects(b, trace, x, i),
    ensures
        forall|k: int|
            0 <= k < 4 ==> #[trigger] dispatch::selector_at(a, i, k) == dispatch::selector_at(b, i, k),
{
    let z = quotient::vanishing(trace.log_n as nat, x);
    let v = a.inv_zeroifier@[i];
    let first = ring::minus(x, Felt::one_spec());
    let last = ring::minus(x, quotient::last_point(trace.log_n as nat));
    Felt::law_mul_comm(v, z);
    let (f, l) = (a.is_first_row@[i], a.is_last_row@[i]);
    Felt::law_mul_comm(f, first);
    Felt::law_mul_assoc(first, f, v);
    lemma_cancel(f, b.is_first_row@[i], first, f.times(v));
    Felt::law_mul_comm(l, last);
    Felt::law_mul_assoc(last, l, v);
    lemma_cancel(l, b.is_last_row@[i], last, l.times(v));
    lemma_cancel(v, b.inv_zeroifier@[i], z, v);
}

/// The selectors that a dispatch holds are those of the point.
proof fn lemma_held_selectors(
    d: ChipDispatch,
    trace_domain: Coset,
    quotient_domain: Coset,
    sels: Selectors,
    i: int,
)
    requires
        dispatch::are_selectors(d.selectors@, trace_domain, quotient_domain),
        0 <= i < pow2(quotient_domain.log_n as nat),
        quotient::selects(sels, trace_domain, quotient::point(quotient_domain, i), i),
    ensures
        held_selector(d, i, 0) == sels.is_first_row@[i],
        held_selector(d, i, 1) == sels.is_last_row@[i],
        held_selector(d, i, 2) == sels.is_transition@[i],
        held_selector(d, i, 3) == sels.inv_zeroifier@[i],
{
    let n = pow2(quotient_domain.log_n as nat);
    let held = choose|held: Selectors|
        {
            &&& held.has_size(n)
            &&& forall|i: int|
                0 <= i < n ==> quotient::selects(
                    held,
                    trace_domain,
                    #[trigger] quotient::point(quotient_domain, i),
                    i,
                )
            &&& d.selectors@ == #[trigger] dispatch::packed(held, n)
        };
    let x = quotient::point(quotient_domain, i);
    assert(quotient::selects(held, trace_domain, x, i));
    lemma_selectors_determined(held, sels, trace_domain, x, i);
    assert forall|k: int| 0 <= k < 4 implies held_selector(d, i, k)
        == #[trigger] dispatch::selector_at(sels, i, k) by {
        assert((4 * i + k) / 4 == i && (4 * i + k) % 4 == k);
        let s = dispatch::selector_at(held, i, k);
        assert(d.selectors@[4 * i + k] == dispatch::raw(s));
        assert(s.value < P) by {
            assert(held.is_transition@[i].value < P);
        }
        lemma_raw(s);
    }
    assert(held_selector(d, i, 0) == dispatch::selector_at(sels, i, 0));
    assert(held_selector(d, i, 1) == dispatch::selector_at(sels, i, 1));
    assert(held_selector(d, i, 2) == dispatch::selector_at(sels, i, 2));
    assert(held_selector(d, i, 3) == dispatch::selector_at(sels, i, 3));
}

/// The program reads the rows and selectors of the point.
proof fn lemma_device_window(
    d: ChipDispatch,
    held_prep: Option<Matrix<Felt>>,
    held_main: Matrix<Felt>,
    held_perm: Matrix<Felt>,
    preprocessed: Option<Matrix<Felt>>,
    main: Matrix<Felt>,
    perm: Matrix<Felt>,
    trace_domain: Coset,
    quotient_domain: Coset,
    sels: Selectors,
    i: int,
)
    requires
        d.quotient_size == pow2(quotient_domain.log_n as nat),
        holds_traces(
            d,
            held_prep,
            held_main,
            held_perm,
            preprocessed,
            main,
            perm,
            quotient_domain.log_n as nat,
        ),
        dispatch::are_selectors(d.selectors@, trace_domain, quotient_domain),
        0 <= i < pow2(quotient_domain.log_n as nat),
        quotient::selects(sels, trace_domain, quotient::point(quotient_domain, i), i),
    ensures
        device_window(d, i) == quotient::quotient_window(
            preprocessed,
            main,
            perm,
            sels,
            d.quotient_size as int,
            d.next_step as int,
            i,
        ),
{
    let log_n = quotient_domain.log_n as nat;
    let rev = d.bit_reversed;
    bits::lemma_log2_pow2(log_n);
    let j = (i + d.next_step) % (d.quotient_size as int);
    lemma_held_row(d.main@, held_main, main, rev, log_n, i);
    lemma_held_row(d.main@, held_main, main, rev, log_n, j);
    lemma_held_row(d.perm@, held_perm, perm, rev, log_n, i);
    lemma_held_row(d.perm@, held_perm, perm, rev, log_n, j);
    if let Some(m) = held_prep {
        lemma_held_row(d.prep@, m, preprocessed->0, rev, log_n, i);
        lemma_held_row(d.prep@, m, preprocessed->0, rev, log_n, j);
    }
    lemma_held_selectors(d, trace_domain, quotient_domain, sels, i);
}

/// A device gives what the library computes itself: from the words that running a dispatch leaves,
/// whether its rows are in natural or in bit-reversed order, the quotient values are those that
/// [`quotient::quotient_values`] returns for the same chip, traces and challenges.
pub proof fn law_device_agrees<A: Air>(
    d: ChipDispatch,
    words: Seq<u32>,
    values: Seq<Ext>,
    chip: Chip<A>,
    prep_width: usize,
    scope: InteractionScope,
    local_sum: Ext,
    digest: SepticDigest,
    challenges: Seq<Ext>,
    alpha: Ext,
    public_values: Seq<Felt>,
    trace_domain: Coset,
    quotient_domain: Coset,
    held_prep: Option<Matrix<Felt>>,
    held_main: Matrix<Felt>,
    held_perm: Matrix<Felt>,
    preprocessed: Option<Matrix<Felt>>,
    main: Matrix<Felt>,
    perm: Matrix<Felt>,
    sels: Selectors,
)
    requires
        dispatch::dispatches(
            d,
            chip,
            prep_width,
            main.width,
            scope,
            local_sum,
            digest,
            challenges,
            alpha,
            public_values,
            trace_domain,
            quotient_domain,
        ),
        dispatch::are_selectors(d.selectors@, trace_domain, quotient_domain),
        holds_traces(
            d,
            held_prep,
            held_main,
            held_perm,
            preprocessed,
            main,
            perm,
            quotient_domain.log_n as nat,
        ),
        runs(d, words),
        values.len() == pow2(quotient_domain.log_n as nat),
        quotient::is_quotient(
            values,
            chip,
            scope,
            local_sum,
            digest,
            trace_domain,
            quotient_domain,
            preprocessed,
            main,
            perm,
            challenges,
            alpha,
            public_values,
            sels,
        ),
        ring::reduced(local_sum) == local_sum,
        ring::reduced(alpha) == alpha,
        compile::reduced_all(challenges) == challenges,
    ensures
        decoded(words) == values,
{
    assert forall|i: int| 0 <= i < values.len() implies #[trigger] decoded(words)[i]
        == values[i] by {
        let x = quotient::point(quotient_domain, i);
        assert(quotient::selects(sels, trace_domain, x, i));
        lemma_device_window(
            d,
            held_prep,
            held_main,
            held_perm,
            preprocessed,
            main,
            perm,
            trace_domain,
            quotient_domain,
            sels,
            i,
        );
        lemma_held_selectors(d, trace_domain, quotient_domain, sels, i);
        dispatch::law_dispatch_agrees(
            d,
            values,
            chip,
            prep_width,
            scope,
            local_sum,
            digest,
            challenges,
            alpha,
            public_values,
            trace_domain,
            quotient_domain,
            preprocessed,
            main,
            perm,
            sels,
            i,
        );
        assert(decoded(words)[i] == device_value(d, i));
    }
    assert(decoded(words) =~= values);
}

} // verus!
