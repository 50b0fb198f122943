//! Writer for the canonical certificate encoding.
//!
//! The writer emits the `sylv-gb-cert-v1` object: the nine keys in the
//! contract order, no insignificant whitespace, and decimal integers.
//! Engine terms run ascending under the order and certificate terms run
//! descending, so the writer reverses every term list. The same values
//! always give the same bytes.

use vstd::prelude::*;
use vstd::string::StringSliceAdditionalSpecFns;

use super::Budget;
use super::divide::poly_views;
use super::represent::SpairEntry;
use crate::compute::ComputeError;
use crate::poly::{Polynomial, TermView};

verus! {

/// The name of the contract.
pub const SCHEMA: &'static str = "sylv-gb-cert-v1";

/// The name of the monomial order.
pub const ORDER: &'static str = "grevlex-v1";

/// The byte `[`.
pub const OPEN: u8 = 91;

/// The byte `]`.
pub const CLOSE: u8 = 93;

/// The byte `,`.
pub const COMMA: u8 = 44;

/// The byte `0`.
pub const DIGIT_ZERO: u8 = 48;

/// The ASCII digits of `v` in base ten, most significant first.
pub open spec fn decimal(v: nat) -> Seq<u8>
    decreases v,
{
    if v < 10 {
        seq![(DIGIT_ZERO + v) as u8]
    } else {
        decimal(v / 10) + seq![(DIGIT_ZERO + v % 10) as u8]
    }
}

/// The number a string of decimal digits names, read most significant
/// digit first.
pub open spec fn numeral_value(s: Seq<u8>) -> int
    decreases s.len(),
{
    if s.len() == 0 {
        0
    } else {
        10 * numeral_value(s.drop_last()) + (s.last() - DIGIT_ZERO)
    }
}

/// Every byte of `s` is a decimal digit, there is at least one, and the
/// first is not a zero unless it is the only one.
pub open spec fn is_numeral(s: Seq<u8>) -> bool {
    &&& s.len() > 0
    &&& forall|k: int| 0 <= k < s.len() ==> DIGIT_ZERO <= #[trigger] s[k] <= DIGIT_ZERO + 9
    &&& s.len() > 1 ==> s[0] != DIGIT_ZERO
}

/// The bytes written for a number are its base-ten numeral: read back most
/// significant digit first, they give the number.
pub proof fn law_decimal_reads_back(v: nat)
    ensures
        is_numeral(decimal(v)),
        numeral_value(decimal(v)) == v,
    decreases v,
{
    if v >= 10 {
        law_decimal_reads_back(v / 10);
        let head = decimal(v / 10);
        let s = decimal(v);
        assert(s == head + seq![(DIGIT_ZERO + v % 10) as u8]);
        assert(s.drop_last() =~= head);
        assert(s[0] == head[0]);
        assert forall|k: int| 0 <= k < s.len() implies DIGIT_ZERO <= #[trigger] s[k] <= DIGIT_ZERO + 9 by {
            if k < head.len() {
                assert(s[k] == head[k]);
            }
        }
        assert(((DIGIT_ZERO + v % 10) as u8) == DIGIT_ZERO + v % 10);
        assert(s.last() == DIGIT_ZERO + v % 10);
        assert(s[s.len() - 1] == s.last());
        if v / 10 < 10 {
            assert(((DIGIT_ZERO + v / 10) as u8) == DIGIT_ZERO + v / 10);
            assert(head[0] == DIGIT_ZERO + v / 10);
        }
        if v / 10 >= 10 {
            let w = v / 10;
            assert(head == decimal(w / 10) + seq![(DIGIT_ZERO + w % 10) as u8]);
            assert(decimal(w / 10).len() >= 1);
            assert(head.len() > 1);
        }
        assert(s[0] != DIGIT_ZERO);
        assert(numeral_value(s) == 10 * numeral_value(head) + (s.last() - DIGIT_ZERO));
        assert(v == 10 * (v / 10) + v % 10);
    } else {
        let s = decimal(v);
        assert(((DIGIT_ZERO + v) as u8) == DIGIT_ZERO + v);
        assert(s.drop_last().len() == 0);
        assert(numeral_value(s.drop_last()) == 0);
        assert(s.last() == DIGIT_ZERO + v);
        assert(s[0] == s.last());
    }
}

/// The items, separated by commas.
pub open spec fn join(items: Seq<Seq<u8>>) -> Seq<u8>
    decreases items.len(),
{
    if items.len() == 0 {
        Seq::empty()
    } else if items.len() == 1 {
        items[0]
    } else {
        join(items.drop_last()) + seq![COMMA] + items.last()
    }
}

/// The bytes between square brackets.
pub open spec fn bracket(s: Seq<u8>) -> Seq<u8> {
    seq![OPEN] + s + seq![CLOSE]
}

/// An exponent vector: `[e_1,...,e_n]`.
pub open spec fn exps_bytes(e: Seq<u16>) -> Seq<u8> {
    bracket(join(e.map_values(|x: u16| decimal(x as nat))))
}

/// One term: `[c,[e_1,...,e_n]]`.
pub open spec fn term_bytes(t: TermView) -> Seq<u8> {
    bracket(decimal(t.0 as nat) + seq![COMMA] + exps_bytes(t.1))
}

/// One polynomial, its terms strictly descending.
pub open spec fn poly_bytes(s: Seq<TermView>) -> Seq<u8> {
    bracket(join(Seq::new(s.len(), |k: int| term_bytes(s[s.len() - 1 - k]))))
}

/// A list of polynomials.
pub open spec fn poly_array_bytes(polys: Seq<Seq<TermView>>) -> Seq<u8> {
    bracket(join(polys.map_values(|s: Seq<TermView>| poly_bytes(s))))
}

/// A list of lists of polynomials.
pub open spec fn entry_array_bytes(entries: Seq<Seq<Seq<TermView>>>) -> Seq<u8> {
    bracket(join(entries.map_values(|e: Seq<Seq<TermView>>| poly_array_bytes(e))))
}

/// One S-pair entry: `[i,j,[cofactors]]`.
pub open spec fn spair_bytes(i: usize, j: usize, cofactors: Seq<Seq<TermView>>) -> Seq<u8> {
    bracket(decimal(i as nat) + seq![COMMA] + decimal(j as nat) + seq![COMMA] + poly_array_bytes(cofactors))
}

/// The term lists of each list of polynomials.
pub open spec fn entry_views(entries: Seq<Vec<Polynomial>>) -> Seq<Seq<Seq<TermView>>> {
    entries.map_values(|e: Vec<Polynomial>| poly_views(e@))
}

/// The encoded S-pair entries.
pub open spec fn spair_list_bytes(spairs: Seq<SpairEntry>) -> Seq<u8> {
    join(spairs.map_values(|e: SpairEntry| spair_bytes(e.i, e.j, poly_views(e.cofactors@))))
}

/// The bytes of one certificate.
pub open spec fn certificate_bytes(
    modulus: u64,
    nvars: usize,
    input: Seq<Seq<TermView>>,
    basis: Seq<Seq<TermView>>,
    origin: Seq<Seq<Seq<TermView>>>,
    membership: Seq<Seq<Seq<TermView>>>,
    spairs: Seq<u8>,
) -> Seq<u8> {
    "{\"schema\":\"".spec_bytes() + SCHEMA.spec_bytes() + "\",\"order\":\"".spec_bytes()
        + ORDER.spec_bytes() + "\",\"modulus\":".spec_bytes() + decimal(modulus as nat)
        + ",\"nvars\":".spec_bytes() + decimal(nvars as nat) + ",\"input\":".spec_bytes()
        + poly_array_bytes(input) + ",\"basis\":".spec_bytes() + poly_array_bytes(basis)
        + ",\"origin\":".spec_bytes() + entry_array_bytes(origin) + ",\"membership\":".spec_bytes()
        + entry_array_bytes(membership) + ",\"spairs\":[".spec_bytes() + spairs + "]}".spec_bytes()
}

/// Every coefficient is a nonzero residue modulo `p`.
pub open spec fn coeffs_reduced(s: Seq<TermView>, p: int) -> bool {
    forall|k: int| 0 <= k < s.len() ==> 0 < (#[trigger] s[k]).0 < p
}

/// Every polynomial of the list holds reduced coefficients.
pub open spec fn all_reduced(polys: Seq<Polynomial>, p: int) -> bool {
    forall|k: int| 0 <= k < polys.len() ==> coeffs_reduced((#[trigger] polys[k])@, p)
}

/// The pieces of one certificate, each already in certificate order.
pub struct Parts<'a> {
    pub modulus: u64,
    pub nvars: usize,
    pub input: &'a [Polynomial],
    pub basis: &'a [Polynomial],
    pub origin: &'a [Vec<Polynomial>],
    pub membership: &'a [Vec<Polynomial>],
    pub spairs: &'a [SpairEntry],
}

impl<'a> Parts<'a> {
    /// Every coefficient the parts hold is a nonzero residue.
    pub open spec fn reduced(&self) -> bool {
        let p = self.modulus as int;
        &&& self.modulus > 0
        &&& all_reduced(self.input@, p)
        &&& all_reduced(self.basis@, p)
        &&& forall|k: int| 0 <= k < self.origin@.len() ==> all_reduced((#[trigger] self.origin@[k])@, p)
        &&& forall|k: int| 0 <= k < self.membership@.len() ==> all_reduced((#[trigger] self.membership@[k])@, p)
        &&& forall|k: int| 0 <= k < self.spairs@.len() ==> all_reduced((#[trigger] self.spairs@[k]).cofactors@, p)
    }

    /// The bytes these parts encode to.
    pub open spec fn bytes(&self) -> Seq<u8> {
        certificate_bytes(
            self.modulus,
            self.nvars,
            poly_views(self.input@),
            poly_views(self.basis@),
            entry_views(self.origin@),
            entry_views(self.membership@),
            spair_list_bytes(self.spairs@),
        )
    }
}

/// The join of a list grows by a comma and the next item.
proof fn lemma_join_push(items: Seq<Seq<u8>>, k: int)
    requires
        0 <= k < items.len(),
    ensures
        join(items.take(k + 1)) == if k == 0 {
            items[0]
        } else {
            join(items.take(k)) + seq![COMMA] + items[k]
        },
{
    let t = items.take(k + 1);
    assert(t.drop_last() =~= items.take(k));
    if k == 0 {
        assert(t.len() == 1);
    }
}

/// Append the bytes of `text`.
pub(crate) fn push_text(out: &mut Vec<u8>, text: &str)
    ensures
        final(out)@ == old(out)@ + text.spec_bytes(),
{
    let bytes = text.as_bytes();
    let ghost start = out@;
    let mut i: usize = 0;
    while i < bytes.len()
        invariant
            bytes@ == text.spec_bytes(),
            i <= bytes@.len(),
            out@ == start + bytes@.take(i as int),
        decreases bytes@.len() - i,
    {
        let ghost before = out@;
        out.push(bytes[i]);
        proof {
            assert(bytes@.take(i as int + 1) =~= bytes@.take(i as int).push(bytes@[i as int]));
            assert(out@ =~= start + bytes@.take(i as int + 1));
        }
        i += 1;
    }
    proof {
        assert(bytes@.take(i as int) =~= bytes@);
    }
}

/// Append the decimal digits of `value`.
fn uint(out: &mut Vec<u8>, value: u64)
    ensures
        final(out)@ == old(out)@ + decimal(value as nat),
        is_numeral(final(out)@.subrange(old(out)@.len() as int, final(out)@.len() as int)),
        numeral_value(final(out)@.subrange(old(out)@.len() as int, final(out)@.len() as int)) == value,
    decreases value,
{
    let ghost start = out@;
    if value >= 10 {
        uint(out, value / 10);
    }
    let digit = (value % 10) as u8;
    out.push(DIGIT_ZERO + digit);
    proof {
        if value < 10 {
            assert(value % 10 == value);
        }
        assert(out@ =~= start + decimal(value as nat));
        assert(out@.subrange(start.len() as int, out@.len() as int) =~= decimal(value as nat));
        law_decimal_reads_back(value as nat);
    }
}

/// Append an exponent vector.
fn exponents(out: &mut Vec<u8>, mono: &crate::monomial::Monomial)
    ensures
        final(out)@ == old(out)@ + exps_bytes(mono@),
{
    let ghost start = out@;
    let ghost items = mono@.map_values(|x: u16| decimal(x as nat));
    out.push(OPEN);
    let mut index: usize = 0;
    while index < mono.exps.len()
        invariant
            mono@ == mono.exps@,
            items == mono@.map_values(|x: u16| decimal(x as nat)),
            index <= mono@.len(),
            out@ == start + seq![OPEN] + join(items.take(index as int)),
        decreases mono@.len() - index,
    {
        proof {
            lemma_join_push(items, index as int);
        }
        let ghost before = out@;
        if index > 0 {
            out.push(COMMA);
        }
        uint(out, mono.exps[index] as u64);
        proof {
            assert(items[index as int] == decimal(mono@[index as int] as nat));
            if index > 0 {
                assert(out@ =~= start + seq![OPEN] + join(items.take(index as int + 1)));
            } else {
                assert(out@ =~= start + seq![OPEN] + join(items.take(index as int + 1)));
            }
        }
        index += 1;
    }
    out.push(CLOSE);
    proof {
        assert(items.take(index as int) =~= items);
        assert(out@ =~= start + exps_bytes(mono@));
    }
}

/// Append one polynomial, terms strictly descending.
///
/// A coefficient outside `[1, p-1]` has no canonical form; every
/// coefficient the writer reads is reduced, so each is written as it
/// stands.
fn polynomial(out: &mut Vec<u8>, poly: &Polynomial, modulus: u64)
    requires
        modulus > 0,
        coeffs_reduced(poly@, modulus as int),
    ensures
        final(out)@ == old(out)@ + poly_bytes(poly@),
{
    let ghost start = out@;
    let ghost s = poly@;
    let ghost items = Seq::new(s.len(), |k: int| term_bytes(s[s.len() - 1 - k]));
    out.push(OPEN);
    let mut written: usize = 0;
    let mut k = poly.terms.len();
    while k > 0
        invariant
            s == poly@,
            s.len() == poly.terms@.len(),
            items == Seq::new(s.len(), |k: int| term_bytes(s[s.len() - 1 - k])),
            modulus > 0,
            coeffs_reduced(s, modulus as int),
            k <= s.len(),
            written == s.len() - k,
            out@ == start + seq![OPEN] + join(items.take(written as int)),
        decreases k,
    {
        k -= 1;
        let term = &poly.terms[k];
        proof {
            assert(s[k as int] == term@);
            assert(0 < s[k as int].0 < modulus);
            lemma_join_push(items, written as int);
            assert(items[written as int] == term_bytes(s[k as int]));
        }
        let coeff = term.coeff.value() % modulus;
        proof {
            vstd::arithmetic::div_mod::lemma_small_mod(term.coeff.value as nat, modulus as nat);
        }
        let ghost before = out@;
        if written > 0 {
            out.push(COMMA);
        }
        let ghost with_comma = out@;
        out.push(OPEN);
        uint(out, coeff);
        out.push(COMMA);
        exponents(out, &term.mono);
        out.push(CLOSE);
        proof {
            assert(out@ =~= with_comma + term_bytes(s[k as int]));
            assert(out@ =~= start + seq![OPEN] + join(items.take(written as int + 1)));
        }
        assert(written < poly.terms.len());
        written += 1;
    }
    out.push(CLOSE);
    proof {
        assert(items.take(written as int) =~= items);
        assert(out@ =~= start + poly_bytes(s));
    }
}

/// Append a list of polynomials, or stop when the buffer would pass the
/// memory limit.
///
/// The writer charges the growing buffer once per polynomial, so a
/// certificate too large for the limit stops within one polynomial of it.
fn poly_array(out: &mut Vec<u8>, polys: &[Polynomial], modulus: u64, budget: &Budget) -> (r: Result<
    (),
    ComputeError,
>)
    requires
        modulus > 0,
        all_reduced(polys@, modulus as int),
    ensures
        r is Ok ==> final(out)@ == old(out)@ + poly_array_bytes(poly_views(polys@)),
        r matches Err(e) ==> e == ComputeError::MemoryLimitExceeded && budget.memory_spec() is Some,
        budget.memory_spec() is None ==> r is Ok,
{
    let ghost start = out@;
    let ghost items = poly_views(polys@).map_values(|q: Seq<TermView>| poly_bytes(q));
    out.push(OPEN);
    let mut index: usize = 0;
    while index < polys.len()
        invariant
            modulus > 0,
            all_reduced(polys@, modulus as int),
            items == poly_views(polys@).map_values(|q: Seq<TermView>| poly_bytes(q)),
            index <= polys@.len(),
            out@ == start + seq![OPEN] + join(items.take(index as int)),
        decreases polys@.len() - index,
    {
        proof {
            lemma_join_push(items, index as int);
            assert(items[index as int] == poly_bytes(polys@[index as int]@));
            assert(coeffs_reduced(polys@[index as int]@, modulus as int));
        }
        let ghost before = out@;
        if index > 0 {
            out.push(COMMA);
        }
        polynomial(out, &polys[index], modulus);
        proof {
            assert(out@ =~= start + seq![OPEN] + join(items.take(index as int + 1)));
        }
        budget.check_bytes(out.len())?;
        index += 1;
    }
    out.push(CLOSE);
    proof {
        assert(items.take(index as int) =~= items);
        assert(out@ =~= start + poly_array_bytes(poly_views(polys@)));
    }
    Ok(())
}

/// Append a list of lists of polynomials.
fn entry_array(out: &mut Vec<u8>, entries: &[Vec<Polynomial>], modulus: u64, budget: &Budget) -> (r:
    Result<(), ComputeError>)
    requires
        modulus > 0,
        forall|k: int| 0 <= k < entries@.len() ==> all_reduced((#[trigger] entries@[k])@, modulus as int),
    ensures
        r is Ok ==> final(out)@ == old(out)@ + entry_array_bytes(entry_views(entries@)),
        r matches Err(e) ==> (e == ComputeError::MemoryLimitExceeded && budget.memory_spec() is Some) || (e
            == ComputeError::Timeout && budget.stops_spec() is Some),
        budget.memory_spec() is None && budget.stops_spec() is None ==> r is Ok,
{
    let ghost start = out@;
    let ghost items = entry_views(entries@).map_values(|e: Seq<Seq<TermView>>| poly_array_bytes(e));
    out.push(OPEN);
    let mut index: usize = 0;
    while index < entries.len()
        invariant
            modulus > 0,
            forall|k: int| 0 <= k < entries@.len() ==> all_reduced((#[trigger] entries@[k])@, modulus as int),
            items == entry_views(entries@).map_values(|e: Seq<Seq<TermView>>| poly_array_bytes(e)),
            index <= entries@.len(),
            out@ == start + seq![OPEN] + join(items.take(index as int)),
        decreases entries@.len() - index,
    {
        proof {
            lemma_join_push(items, index as int);
            assert(items[index as int] == poly_array_bytes(poly_views(entries@[index as int]@)));
        }
        let ghost before = out@;
        if index > 0 {
            out.push(COMMA);
        }
        budget.check_deadline()?;
        poly_array(out, entries[index].as_slice(), modulus, budget)?;
        proof {
            assert(out@ =~= start + seq![OPEN] + join(items.take(index as int + 1)));
        }
        index += 1;
    }
    out.push(CLOSE);
    proof {
        assert(items.take(index as int) =~= items);
        assert(out@ =~= start + entry_array_bytes(entry_views(entries@)));
    }
    Ok(())
}

/// Write the canonical bytes, or stop when the deadline passes or the
/// buffer would pass the memory limit. The budget stops a write; it never
/// changes the bytes.
pub fn write(parts: &Parts, budget: &Budget) -> (r: Result<Vec<u8>, ComputeError>)
    requires
        parts.reduced(),
    ensures
        r matches Ok(out) ==> out@ == parts.bytes(),
        r matches Err(e) ==> (e == ComputeError::MemoryLimitExceeded && budget.memory_spec() is Some) || (e
            == ComputeError::Timeout && budget.stops_spec() is Some),
        budget.memory_spec() is None && budget.stops_spec() is None ==> r is Ok,
{
    let modulus = parts.modulus;
    let mut out: Vec<u8> = Vec::new();
    push_text(&mut out, "{\"schema\":\"");
    push_text(&mut out, SCHEMA);
    push_text(&mut out, "\",\"order\":\"");
    push_text(&mut out, ORDER);
    push_text(&mut out, "\",\"modulus\":");
    uint(&mut out, modulus);
    push_text(&mut out, ",\"nvars\":");
    uint(&mut out, parts.nvars as u64);
    push_text(&mut out, ",\"input\":");
    poly_array(&mut out, parts.input, modulus, budget)?;
    push_text(&mut out, ",\"basis\":");
    poly_array(&mut out, parts.basis, modulus, budget)?;
    push_text(&mut out, ",\"origin\":");
    entry_array(&mut out, parts.origin, modulus, budget)?;
    push_text(&mut out, ",\"membership\":");
    entry_array(&mut out, parts.membership, modulus, budget)?;
    push_text(&mut out, ",\"spairs\":[");
    let ghost head = out@;
    let ghost items = parts.spairs@.map_values(
        |e: SpairEntry| spair_bytes(e.i, e.j, poly_views(e.cofactors@)),
    );
    let mut index: usize = 0;
    while index < parts.spairs.len()
        invariant
            modulus == parts.modulus,
            parts.reduced(),
            items == parts.spairs@.map_values(
                |e: SpairEntry| spair_bytes(e.i, e.j, poly_views(e.cofactors@)),
            ),
            index <= parts.spairs@.len(),
            out@ == head + join(items.take(index as int)),
        decreases parts.spairs@.len() - index,
    {
        let entry = &parts.spairs[index];
        proof {
            lemma_join_push(items, index as int);
            assert(items[index as int] == spair_bytes(entry.i, entry.j, poly_views(entry.cofactors@)));
            assert(all_reduced(entry.cofactors@, modulus as int));
        }
        if index > 0 {
            out.push(COMMA);
        }
        budget.check_deadline()?;
        let ghost before = out@;
        out.push(OPEN);
        uint(&mut out, entry.i as u64);
        out.push(COMMA);
        uint(&mut out, entry.j as u64);
        out.push(COMMA);
        poly_array(&mut out, entry.cofactors.as_slice(), modulus, budget)?;
        out.push(CLOSE);
        proof {
            assert(out@ =~= before + spair_bytes(entry.i, entry.j, poly_views(entry.cofactors@)));
            assert(out@ =~= head + join(items.take(index as int + 1)));
        }
        index += 1;
    }
    push_text(&mut out, "]}");
    proof {
        assert(items.take(index as int) =~= items);
        assert(out@ =~= parts.bytes());
    }
    Ok(out)
}

} // verus!
