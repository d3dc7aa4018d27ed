//! Literal payloads carried by tokens and by literal expression nodes.
//!
//! A numeric literal is kept as its exact decimal value in canonical form
//! (no leading zeros in the whole part, no trailing zeros in the fractional
//! part), so that two lexemes denoting the same number, such as `3` and
//! `3.0`, carry equal payloads and render identically.

use vstd::prelude::*;
use vstd::string::*;

use crate::digits::{digit_str, digit_to_char};

verus! {

/// Mathematical model of a [`NumberValue`]: the canonical decimal digits of
/// the whole part and of the fractional part.
pub struct NumV {
    pub int: Seq<u8>,
    pub frac: Seq<u8>,
}

/// Mathematical model of a [`Literal`].
pub enum LiteralV {
    Bool(bool),
    Num(NumV),
    Str(Seq<char>),
    Nil,
}

/// `ds` with leading zero digits removed.
pub open spec fn drop_leading_zeros(ds: Seq<u8>) -> Seq<u8>
    decreases ds.len(),
{
    if ds.len() > 0 && ds[0] == 0 {
        drop_leading_zeros(ds.drop_first())
    } else {
        ds
    }
}

/// The canonical whole part for raw digits `ds`: leading zeros removed, with
/// a single `0` left when nothing remains.
pub open spec fn canon_int(ds: Seq<u8>) -> Seq<u8> {
    let r = drop_leading_zeros(ds);
    if r.len() == 0 {
        seq![0u8]
    } else {
        r
    }
}

/// The canonical fractional part for raw digits `ds`: trailing zeros removed.
pub open spec fn canon_frac(ds: Seq<u8>) -> Seq<u8>
    decreases ds.len(),
{
    if ds.len() > 0 && ds.last() == 0 {
        canon_frac(ds.drop_last())
    } else {
        ds
    }
}

/// Removing leading zeros keeps every digit below ten.
pub proof fn lemma_drop_leading_zeros_bound(ds: Seq<u8>)
    requires
        forall|k: int| 0 <= k < ds.len() ==> ds[k] < 10,
    ensures
        forall|k: int|
            0 <= k < drop_leading_zeros(ds).len() ==> drop_leading_zeros(ds)[k] < 10,
    decreases ds.len(),
{
    if ds.len() > 0 && ds[0] == 0 {
        assert(forall|k: int| 0 <= k < ds.drop_first().len() ==> ds.drop_first()[k] < 10);
        lemma_drop_leading_zeros_bound(ds.drop_first());
        assert(drop_leading_zeros(ds) == drop_leading_zeros(ds.drop_first()));
    }
}

/// The canonical whole part is never empty and keeps every digit below
/// ten.
pub proof fn lemma_canon_int_wf(ds: Seq<u8>)
    requires
        forall|k: int| 0 <= k < ds.len() ==> ds[k] < 10,
    ensures
        canon_int(ds).len() >= 1,
        forall|k: int| 0 <= k < canon_int(ds).len() ==> canon_int(ds)[k] < 10,
{
    lemma_drop_leading_zeros_bound(ds);
}

/// Removing trailing zeros keeps every digit below ten.
pub proof fn lemma_canon_frac_bound(ds: Seq<u8>)
    requires
        forall|k: int| 0 <= k < ds.len() ==> ds[k] < 10,
    ensures
        forall|k: int| 0 <= k < canon_frac(ds).len() ==> canon_frac(ds)[k] < 10,
    decreases ds.len(),
{
    if ds.len() > 0 && ds.last() == 0 {
        assert(forall|k: int| 0 <= k < ds.drop_last().len() ==> ds.drop_last()[k] < 10);
        lemma_canon_frac_bound(ds.drop_last());
        assert(canon_frac(ds) == canon_frac(ds.drop_last()));
    }
}

/// Digits that can be rendered: at least one whole digit, every digit below
/// ten.
pub open spec fn num_wf(v: NumV) -> bool {
    &&& v.int.len() >= 1
    &&& forall|k: int| 0 <= k < v.int.len() ==> v.int[k] < 10
    &&& forall|k: int| 0 <= k < v.frac.len() ==> v.frac[k] < 10
}

/// How a number renders: the whole digits, a decimal point, then the
/// fractional digits, with an explicit trailing zero when the value is
/// integral (`3.0`, never `3`).
pub open spec fn render_num(v: NumV) -> Seq<char> {
    v.int.map_values(|d: u8| digit_to_char(d)) + seq!['.'] + (if v.frac.len() == 0 {
        seq!['0']
    } else {
        v.frac.map_values(|d: u8| digit_to_char(d))
    })
}

/// The exact decimal value of a numeric literal, in canonical form.
#[derive(Debug, PartialEq)]
pub struct NumberValue {
    /// Digits of the whole part, most significant first; never empty and
    /// never with a leading zero unless the whole part is exactly `0`.
    pub int_digits: Vec<u8>,
    /// Digits of the fractional part, most significant first; never with a
    /// trailing zero.  Empty for an integral value.
    pub frac_digits: Vec<u8>,
}

impl View for NumberValue {
    type V = NumV;

    open spec fn view(&self) -> NumV {
        NumV { int: self.int_digits@, frac: self.frac_digits@ }
    }
}

impl Clone for NumberValue {
    fn clone(&self) -> (r: Self)
        ensures
            r@ == self@,
    {
        NumberValue { int_digits: self.int_digits.clone(), frac_digits: self.frac_digits.clone() }
    }
}

impl NumberValue {
    /// Builds the canonical value with the given raw whole and fractional
    /// digits.
    pub fn from_parts(int_digits: Vec<u8>, frac_digits: Vec<u8>) -> (r: NumberValue)
        requires
            forall|k: int| 0 <= k < int_digits@.len() ==> int_digits@[k] < 10,
            forall|k: int| 0 <= k < frac_digits@.len() ==> frac_digits@[k] < 10,
        ensures
            r@ == (NumV { int: canon_int(int_digits@), frac: canon_frac(frac_digits@) }),
            num_wf(r@),
    {
        let ghost gint = int_digits@;
        let ghost gfrac = frac_digits@;
        proof {
            assert(gint.subrange(0, gint.len() as int) =~= gint);
            assert(gfrac.subrange(0, gfrac.len() as int) =~= gfrac);
        }
        let mut lead: usize = 0;
        while lead < int_digits.len() && int_digits[lead] == 0
            invariant
                lead <= gint.len(),
                int_digits@ == gint,
                drop_leading_zeros(gint) == drop_leading_zeros(gint.subrange(
                    lead as int,
                    gint.len() as int,
                )),
            decreases gint.len() - lead,
        {
            proof {
                let cur = gint.subrange(lead as int, gint.len() as int);
                assert(cur.drop_first() =~= gint.subrange(lead as int + 1, gint.len() as int));
            }
            lead = lead + 1;
        }
        let mut whole: Vec<u8> = Vec::new();
        if lead == int_digits.len() {
            whole.push(0);
            proof {
                assert(gint.subrange(lead as int, gint.len() as int) =~= Seq::<u8>::empty());
                assert(whole@ =~= seq![0u8]);
            }
        } else {
            let mut k: usize = lead;
            while k < int_digits.len()
                invariant
                    lead <= k <= gint.len(),
                    int_digits@ == gint,
                    whole@ == gint.subrange(lead as int, k as int),
                decreases gint.len() - k,
            {
                whole.push(int_digits[k]);
                k = k + 1;
                proof {
                    assert(gint.subrange(lead as int, k as int) =~= gint.subrange(
                        lead as int,
                        k as int - 1,
                    ).push(gint[k as int - 1]));
                }
            }
            proof {
                let cur = gint.subrange(lead as int, gint.len() as int);
                assert(drop_leading_zeros(cur) == cur);
            }
        }
        let mut fl: usize = frac_digits.len();
        while fl > 0 && frac_digits[fl - 1] == 0
            invariant
                fl <= gfrac.len(),
                frac_digits@ == gfrac,
                canon_frac(gfrac) == canon_frac(gfrac.subrange(0, fl as int)),
            decreases fl,
        {
            proof {
                let cur = gfrac.subrange(0, fl as int);
                assert(cur.drop_last() =~= gfrac.subrange(0, fl as int - 1));
            }
            fl = fl - 1;
        }
        let mut fract: Vec<u8> = Vec::new();
        let mut k: usize = 0;
        while k < fl
            invariant
                k <= fl <= gfrac.len(),
                frac_digits@ == gfrac,
                fract@ == gfrac.subrange(0, k as int),
            decreases fl - k,
        {
            fract.push(frac_digits[k]);
            k = k + 1;
            proof {
                assert(gfrac.subrange(0, k as int) =~= gfrac.subrange(0, k as int - 1).push(
                    gfrac[k as int - 1],
                ));
            }
        }
        proof {
            let cur = gfrac.subrange(0, fl as int);
            assert(canon_frac(cur) == cur);
        }
        NumberValue { int_digits: whole, frac_digits: fract }
    }

    /// Renders the value in decimal with an explicit fractional part.
    pub fn render(&self) -> (r: String)
        requires
            num_wf(self@),
        ensures
            r@ == render_num(self@),
    {
        let mut r = String::new();
        let mut k: usize = 0;
        while k < self.int_digits.len()
            invariant
                num_wf(self@),
                k <= self@.int.len(),
                r@ == self@.int.subrange(0, k as int).map_values(|d: u8| digit_to_char(d)),
            decreases self@.int.len() - k,
        {
            r.append(digit_str(self.int_digits[k]));
            k = k + 1;
            proof {
                let f = |d: u8| digit_to_char(d);
                assert(self@.int.subrange(0, k as int).map_values(f) =~= self@.int.subrange(
                    0,
                    k as int - 1,
                ).map_values(f) + seq![digit_to_char(self@.int[k as int - 1])]);
            }
        }
        proof {
            assert(self@.int.subrange(0, self@.int.len() as int) =~= self@.int);
        }
        r.append(".");
        proof {
            reveal_strlit(".");
            assert("."@ =~= seq!['.']);
        }
        if self.frac_digits.len() == 0 {
            r.append(digit_str(0));
            proof {
                assert(r@ =~= render_num(self@));
            }
        } else {
            let mut k: usize = 0;
            while k < self.frac_digits.len()
                invariant
                    num_wf(self@),
                    self@.frac.len() > 0,
                    k <= self@.frac.len(),
                    r@ == self@.int.map_values(|d: u8| digit_to_char(d)) + seq!['.']
                        + self@.frac.subrange(0, k as int).map_values(|d: u8| digit_to_char(d)),
                decreases self@.frac.len() - k,
            {
                r.append(digit_str(self.frac_digits[k]));
                k = k + 1;
                proof {
                    let f = |d: u8| digit_to_char(d);
                    assert(self@.frac.subrange(0, k as int).map_values(f) =~= self@.frac.subrange(
                        0,
                        k as int - 1,
                    ).map_values(f) + seq![digit_to_char(self@.frac[k as int - 1])]);
                }
            }
            proof {
                assert(self@.frac.subrange(0, self@.frac.len() as int) =~= self@.frac);
                assert(r@ =~= render_num(self@));
            }
        }
        r
    }
}

/// Value payload of a token or of a literal expression node: a boolean, a
/// number, a text string, or no value.
#[derive(Debug, PartialEq)]
pub enum Literal {
    Bool(bool),
    Number(NumberValue),
    Str(String),
    Nil,
}

impl View for Literal {
    type V = LiteralV;

    open spec fn view(&self) -> LiteralV {
        match self {
            Literal::Bool(b) => LiteralV::Bool(*b),
            Literal::Number(n) => LiteralV::Num(n@),
            Literal::Str(s) => LiteralV::Str(s@),
            Literal::Nil => LiteralV::Nil,
        }
    }
}

impl Clone for Literal {
    fn clone(&self) -> (r: Self)
        ensures
            r@ == self@,
    {
        match self {
            Literal::Bool(b) => Literal::Bool(*b),
            Literal::Number(n) => Literal::Number(n.clone()),
            Literal::Str(s) => Literal::Str(s.clone()),
            Literal::Nil => Literal::Nil,
        }
    }
}

/// Digits that can be rendered, lifted to any literal.
pub open spec fn lit_wf(l: LiteralV) -> bool {
    match l {
        LiteralV::Num(v) => num_wf(v),
        _ => true,
    }
}

/// How a literal payload renders inside a rendered token: booleans by name,
/// numbers with an explicit fractional part, strings as their text, and the
/// missing payload as `null`.
pub open spec fn render_literal(l: LiteralV) -> Seq<char> {
    match l {
        LiteralV::Bool(b) => if b {
            "true"@
        } else {
            "false"@
        },
        LiteralV::Num(v) => render_num(v),
        LiteralV::Str(s) => s,
        LiteralV::Nil => "null"@,
    }
}

impl Literal {
    /// Renders the payload for diagnostics.
    pub fn render(&self) -> (r: String)
        requires
            lit_wf(self@),
        ensures
            r@ == render_literal(self@),
    {
        match self {
            Literal::Bool(b) => {
                if *b {
                    "true".to_owned()
                } else {
                    "false".to_owned()
                }
            },
            Literal::Number(n) => n.render(),
            Literal::Str(s) => s.clone(),
            Literal::Nil => "null".to_owned(),
        }
    }
}

} // verus!
