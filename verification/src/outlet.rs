//! Codes of remote-controlled power outlets.
//!
//! A code is a list of binary digits. Each digit is sent as a long or a
//! short high pulse followed by a low gap, the whole code is followed by a
//! long silence, and the transmission repeats the code five times.
use vstd::prelude::*;
use bit_vec::BitVec;
use crate::oblw::{Run, runs_view, rld, v2b, bits_of, levels_to_bits};
use crate::runs::{rld_spec, lemma_rld_concat};

verus! {

/// Samples of a long pulse or gap.
pub const LONG: usize = 561;

/// Samples of a short pulse or gap.
pub const SHORT: usize = 187;

/// Samples of silence after each code.
pub const SILENCE: usize = 5000;

/// How many times a code is sent.
pub const REPEATS: usize = 5;

/// The runs that send one digit of a code: a one is a long pulse and a
/// short gap, a zero a short pulse and a long gap; anything else sends
/// nothing.
pub open spec fn digit_runs(d: Option<i64>) -> Seq<(usize, nat)> {
    match d {
        Some(1) => seq![(1usize, LONG as nat), (0usize, SHORT as nat)],
        Some(0) => seq![(1usize, SHORT as nat), (0usize, LONG as nat)],
        _ => Seq::empty(),
    }
}

/// The runs that send a code once, silence included.
pub open spec fn code_once(code: Seq<Option<i64>>) -> Seq<(usize, nat)> {
    code.map_values(|d: Option<i64>| digit_runs(d)).flatten() + seq![(0usize, SILENCE as nat)]
}

/// The runs that send a code `n` times.
pub open spec fn code_repeated(code: Seq<Option<i64>>, n: nat) -> Seq<(usize, nat)>
    decreases n,
{
    if n == 0 {
        Seq::empty()
    } else {
        code_repeated(code, (n - 1) as nat) + code_once(code)
    }
}

/// The number of digits of a code that are sent: its zeros and ones.
pub open spec fn sent_digits(code: Seq<Option<i64>>) -> nat
    decreases code.len(),
{
    if code.len() == 0 {
        0
    } else {
        sent_digits(code.drop_first()) + if code[0] == Some(1i64) || code[0] == Some(0i64) {
            1nat
        } else {
            0nat
        }
    }
}

proof fn lemma_flat_digits_len(code: Seq<Option<i64>>)
    ensures
        rld_spec(code.map_values(|d: Option<i64>| digit_runs(d)).flatten()).len() == (LONG + SHORT)
            * sent_digits(code),
    decreases code.len(),
{
    let m = code.map_values(|d: Option<i64>| digit_runs(d));
    if code.len() > 0 {
        lemma_flat_digits_len(code.drop_first());
        assert(m.drop_first() =~= code.drop_first().map_values(|d: Option<i64>| digit_runs(d)));
        lemma_rld_concat(m[0], m.drop_first().flatten());
        let r0 = digit_runs(code[0]);
        assert(m[0] == r0);
        if code[0] == Some(1i64) || code[0] == Some(0i64) {
            assert(r0.drop_last().drop_last() =~= Seq::<(usize, nat)>::empty());
            assert(r0.drop_last().last() == r0[0]);
            assert(rld_spec(Seq::<(usize, nat)>::empty()) =~= Seq::<usize>::empty());
            assert(rld_spec(r0.drop_last()).len() == r0[0].1);
            assert(rld_spec(r0).len() == r0[0].1 + r0[1].1);
            assert(rld_spec(r0).len() == LONG + SHORT);
        } else {
            assert(rld_spec(r0).len() == 0);
        }
    } else {
        assert(m.flatten() =~= Seq::<(usize, nat)>::empty());
    }
}

/// Law: sending a code `n` times takes `n` times the samples of one round:
/// a long and a short stretch per digit sent, and the silence.
pub proof fn lemma_code_length(code: Seq<Option<i64>>, n: nat)
    ensures
        rld_spec(code_repeated(code, n)).len() == n * ((LONG + SHORT) * sent_digits(code) + SILENCE),
    decreases n,
{
    if n > 0 {
        lemma_code_length(code, (n - 1) as nat);
        let flat = code.map_values(|d: Option<i64>| digit_runs(d)).flatten();
        lemma_rld_concat(code_repeated(code, (n - 1) as nat), code_once(code));
        lemma_rld_concat(flat, seq![(0usize, SILENCE as nat)]);
        lemma_flat_digits_len(code);
        let s1 = seq![(0usize, SILENCE as nat)];
        assert(s1.drop_last() =~= Seq::<(usize, nat)>::empty());
        assert(rld_spec(Seq::<(usize, nat)>::empty()) =~= Seq::<usize>::empty());
        assert(rld_spec(s1).len() == SILENCE);
        let x = (LONG + SHORT) * sent_digits(code) + SILENCE;
        assert(rld_spec(code_once(code)).len() == x);
        assert(rld_spec(code_repeated(code, n)).len() == rld_spec(code_repeated(code, (n - 1) as nat)).len() + x);
        assert((n - 1) * x + x == n * x) by (nonlinear_arith);
    } else {
        assert(rld_spec(Seq::<(usize, nat)>::empty()) =~= Seq::<usize>::empty());
    }
}

fn push_digit(y: &mut Vec<Run>, d: Option<i64>)
    ensures
        runs_view(final(y)@) == runs_view(old(y)@) + digit_runs(d),
{
    match d {
        Some(1) => {
            y.push(Run { v: 1, ct: LONG });
            y.push(Run { v: 0, ct: SHORT });
        },
        Some(0) => {
            y.push(Run { v: 1, ct: SHORT });
            y.push(Run { v: 0, ct: LONG });
        },
        _ => {},
    }
    proof {
        assert(runs_view(y@) =~= runs_view(old(y)@) + digit_runs(d));
    }
}

/// The runs that send a code five times.
pub fn code_runs(code: &[Option<i64>]) -> (y: Vec<Run>)
    ensures
        runs_view(y@) == code_repeated(code@, REPEATS as nat),
{
    let ghost digits = code@.map_values(|d: Option<i64>| digit_runs(d));
    let mut y: Vec<Run> = Vec::new();
    for r in 0..REPEATS
        invariant
            digits == code@.map_values(|d: Option<i64>| digit_runs(d)),
            runs_view(y@) == code_repeated(code@, r as nat),
    {
        let ghost before = runs_view(y@);
        for i in 0..code.len()
            invariant
                digits == code@.map_values(|d: Option<i64>| digit_runs(d)),
                runs_view(y@) == before + digits.take(i as int).flatten_alt(),
        {
            let ghost mid = runs_view(y@);
            push_digit(&mut y, code[i]);
            proof {
                assert(digits.take(i + 1).drop_last() =~= digits.take(i as int));
                assert(runs_view(y@) =~= before + digits.take(i + 1).flatten_alt());
            }
        }
        proof {
            assert(digits.len() == code@.len());
            assert(digits.take(code.len() as int) =~= digits);
            digits.lemma_flatten_and_flatten_alt_are_equivalent();
            assert(runs_view(y@) == before + digits.flatten());
        }
        let ghost pre = y@;
        y.push(Run { v: 0, ct: SILENCE });
        proof {
            assert(runs_view(y@) =~= runs_view(pre).push((0usize, SILENCE as nat)));
            assert(runs_view(y@) =~= before + code_once(code@));
        }
    }
    y
}

/// The bit vector that sends a code: the levels of its runs, five times over.
/// Without a code, the bit vector is empty.
pub fn code_bits(code: Option<Vec<Option<i64>>>) -> (b: BitVec)
    ensures
        bits_of(b) == match code {
            Some(c) => levels_to_bits(rld_spec(code_repeated(c@, REPEATS as nat))),
            None => Seq::empty(),
        },
{
    match code {
        Some(c) => v2b(rld(code_runs(c.as_slice()))),
        None => {
            let empty: Vec<usize> = Vec::new();
            let b = v2b(empty);
            assert(levels_to_bits(Seq::<usize>::empty()) =~= Seq::<bool>::empty());
            b
        },
    }
}

/// What a TOML document holds at `table.key`, as a list of integers:
/// `None` where `text` is no TOML document; `Some(None)` where the document
/// has no such entry; `Some(Some(None))` where the entry is not an array;
/// otherwise each element of the array, as its integer where it is one.
pub uninterp spec fn toml_int_list(text: Seq<char>, table: Seq<char>, key: Seq<char>) -> Option<
    Option<Option<Seq<Option<i64>>>>,
>;

/// The view of an entry read from a TOML document.
pub open spec fn entry_view(e: Option<Option<Option<Vec<Option<i64>>>>>) -> Option<
    Option<Option<Seq<Option<i64>>>>,
> {
    match e {
        None => None,
        Some(None) => Some(None),
        Some(Some(None)) => Some(Some(None)),
        Some(Some(Some(v))) => Some(Some(Some(v@))),
    }
}

/// Parses `text` with `str::parse::<toml::Table>`, looks up `table` in the
/// root with `Table::get` and `key` in it with `Value::get`, and reads the
/// entry with `Value::as_array` and each element with `Value::as_integer`.
/// Claimed: the result is `toml_int_list` of the three arguments, which are
/// only read.
#[verifier::external_body]
fn toml_entry_of(text: &str, table: &str, key: &str) -> (e: Option<
    Option<Option<Vec<Option<i64>>>>,
>)
    ensures
        entry_view(e) == toml_int_list(text@, table@, key@),
{
    let root = match text.parse::<toml::Table>() {
        Ok(root) => root,
        Err(_) => return None,
    };
    let entry = match root.get(table) {
        Some(t) => t.get(key),
        None => None,
    };
    Some(entry.map(|d| d.as_array().map(|a| a.iter().map(toml::Value::as_integer).collect())))
}

/// Why no code could be read.
#[derive(PartialEq, Eq, Structural, Debug, Clone, Copy)]
pub enum OutletError {
    /// The text is no TOML document.
    Unparsable,
    /// The code's entry is not a list.
    NotAList,
}

/// The bits of a result, as a sequence.
pub open spec fn result_bits(r: Result<BitVec, OutletError>) -> Result<Seq<bool>, OutletError> {
    match r {
        Ok(b) => Ok(bits_of(b)),
        Err(e) => Err(e),
    }
}

/// What the code entry `e` of a TOML document sends: an error where the
/// document does not parse or the entry is not a list, no bits where there
/// is no entry, else the bits of the code.
pub open spec fn outlet_spec(e: Option<Option<Option<Seq<Option<i64>>>>>) -> Result<
    Seq<bool>,
    OutletError,
> {
    match e {
        None => Err(OutletError::Unparsable),
        Some(None) => Ok(Seq::empty()),
        Some(Some(None)) => Err(OutletError::NotAList),
        Some(Some(Some(c))) => Ok(levels_to_bits(rld_spec(code_repeated(c, REPEATS as nat)))),
    }
}

/// The bits that send a code entry read from a TOML document.
pub fn outlet_bits(e: Option<Option<Option<Vec<Option<i64>>>>>) -> (r: Result<BitVec, OutletError>)
    ensures
        result_bits(r) == outlet_spec(entry_view(e)),
{
    match e {
        None => Err(OutletError::Unparsable),
        Some(None) => Ok(code_bits(None)),
        Some(Some(None)) => Err(OutletError::NotAList),
        Some(Some(Some(c))) => Ok(code_bits(Some(c))),
    }
}

/// The bits that send the code named `name` in the TOML document `text`,
/// whose codes stand in the table `db`.
pub fn outlet_code(text: &str, name: &str) -> (r: Result<BitVec, OutletError>)
    ensures
        result_bits(r) == outlet_spec(toml_int_list(text@, "db"@, name@)),
{
    outlet_bits(toml_entry_of(text, "db", name))
}

} // verus!
