//! Column references and their resolution against a header.
//!
//! A column can be addressed by name or by position. Resolution is
//! deterministic against a header snapshot: a name resolves to the first
//! column carrying it, a position resolves to itself while it is in range.
use crate::model::{first_match, lemma_first_match_is, lemma_first_match_none};
use vstd::prelude::*;

verus! {

/// A reference to a column of a table, resolvable against a header snapshot.
///
/// Implemented for `String` and `&str` (lookup by name, first match wins)
/// and for `usize` (lookup by position).
pub trait Column {
    /// The position this reference resolves to against `header`, if any.
    spec fn resolve(&self, header: Seq<Seq<char>>) -> Option<int>;

    /// The text an error report names this reference by: the name itself,
    /// or a position in decimal.
    spec fn describe_name(&self) -> Seq<char>;

    /// Resolve this reference against the given column names.
    fn find(&self, cols: &Vec<String>) -> (r: Option<usize>)
        ensures
            match r {
                Some(i) => self.resolve(cols.deep_view()) == Some(i as int) && i < cols.len(),
                None => self.resolve(cols.deep_view()) is None,
            },
    ;

    /// Describe this reference for an error report.
    fn describe(&self) -> (r: String)
        ensures
            r@ == self.describe_name(),
    ;
}

/// Position of the first column in `cols` whose name equals `name`.
fn find_name(cols: &Vec<String>, name: &str) -> (r: Option<usize>)
    ensures
        match r {
            Some(i) => first_match(cols.deep_view(), name@) == Some(i as int) && i < cols.len(),
            None => first_match(cols.deep_view(), name@) is None,
        },
{
    let owned = String::from_str(name);
    let ghost header = cols.deep_view();
    let n = cols.len();
    let mut i: usize = 0;
    while i < n
        invariant
            n == cols.len(),
            0 <= i <= n,
            header == cols.deep_view(),
            owned@ == name@,
            forall|j: int| 0 <= j < i ==> header[j] != name@,
        decreases n - i,
    {
        assert(header[i as int] == cols@[i as int]@);
        if cols[i].eq(&owned) {
            proof {
                lemma_first_match_is(header, name@, i as int);
            }
            return Some(i);
        }
        i += 1;
    }
    proof {
        lemma_first_match_none(header, name@);
    }
    None
}

/// The character for one decimal digit.
pub open spec fn digit_char(d: int) -> char {
    if d == 0 {
        '0'
    } else if d == 1 {
        '1'
    } else if d == 2 {
        '2'
    } else if d == 3 {
        '3'
    } else if d == 4 {
        '4'
    } else if d == 5 {
        '5'
    } else if d == 6 {
        '6'
    } else if d == 7 {
        '7'
    } else if d == 8 {
        '8'
    } else {
        '9'
    }
}

/// A nonnegative number written in decimal, most significant digit first.
pub open spec fn decimal_text(n: int) -> Seq<char>
    decreases n,
{
    if n < 10 {
        seq![digit_char(n)]
    } else {
        decimal_text(n / 10).push(digit_char(n % 10))
    }
}

/// Append the character for one decimal digit to `s`.
fn append_digit(s: &mut String, d: usize)
    requires
        d < 10,
    ensures
        final(s)@ == old(s)@.push(digit_char(d as int)),
{
    if d == 0 {
        s.append("0");
        proof {
            reveal_strlit("0");
            assert(final(s)@ =~= old(s)@.push('0'));
        }
    } else if d == 1 {
        s.append("1");
        proof {
            reveal_strlit("1");
            assert(final(s)@ =~= old(s)@.push('1'));
        }
    } else if d == 2 {
        s.append("2");
        proof {
            reveal_strlit("2");
            assert(final(s)@ =~= old(s)@.push('2'));
        }
    } else if d == 3 {
        s.append("3");
        proof {
            reveal_strlit("3");
            assert(final(s)@ =~= old(s)@.push('3'));
        }
    } else if d == 4 {
        s.append("4");
        proof {
            reveal_strlit("4");
            assert(final(s)@ =~= old(s)@.push('4'));
        }
    } else if d == 5 {
        s.append("5");
        proof {
            reveal_strlit("5");
            assert(final(s)@ =~= old(s)@.push('5'));
        }
    } else if d == 6 {
        s.append("6");
        proof {
            reveal_strlit("6");
            assert(final(s)@ =~= old(s)@.push('6'));
        }
    } else if d == 7 {
        s.append("7");
        proof {
            reveal_strlit("7");
            assert(final(s)@ =~= old(s)@.push('7'));
        }
    } else if d == 8 {
        s.append("8");
        proof {
            reveal_strlit("8");
            assert(final(s)@ =~= old(s)@.push('8'));
        }
    } else {
        s.append("9");
        proof {
            reveal_strlit("9");
            assert(final(s)@ =~= old(s)@.push('9'));
        }
    }
}

/// A number rendered in decimal.
fn decimal_string(n: usize) -> (r: String)
    ensures
        r@ == decimal_text(n as int),
{
    // collect the digits, least significant first
    let mut digits: Vec<usize> = Vec::new();
    let mut m: usize = n;
    digits.push(m % 10);
    m = m / 10;
    while m > 0
        invariant
            digits@.len() >= 1,
            forall|i: int| 0 <= i < digits@.len() ==> (#[trigger] digits@[i]) < 10,
            decimal_text(n as int) == (if m > 0 {
                decimal_text(m as int)
            } else {
                Seq::<char>::empty()
            }) + Seq::new(digits@.len(), |i: int| digit_char(digits@[digits@.len() - 1 - i] as int)),
        decreases m,
    {
        let ghost odigits = digits@;
        let ghost om = m as int;
        digits.push(m % 10);
        m = m / 10;
        proof {
            let tail = Seq::new(
                odigits.len(),
                |i: int| digit_char(odigits[odigits.len() - 1 - i] as int),
            );
            let tail2 = Seq::new(
                digits@.len(),
                |i: int| digit_char(digits@[digits@.len() - 1 - i] as int),
            );
            if om < 10 {
                assert(decimal_text(om) =~= Seq::<char>::empty().push(digit_char(om % 10)));
            }
            assert(tail2 =~= seq![digit_char(om % 10)] + tail);
            if m > 0 {
                assert(decimal_text(om) == decimal_text(m as int).push(digit_char(om % 10)));
                assert(decimal_text(m as int).push(digit_char(om % 10)) + tail =~= decimal_text(
                    m as int,
                ) + tail2);
            } else {
                assert(decimal_text(om) + tail =~= Seq::<char>::empty() + tail2);
            }
        }
    }
    // emit them most significant first
    let ghost gdigits = digits@;
    let mut s = String::new();
    proof {
        assert(digits@ =~= gdigits.take(digits@.len() as int));
    }
    while digits.len() > 0
        invariant
            forall|i: int| 0 <= i < gdigits.len() ==> (#[trigger] gdigits[i]) < 10,
            digits@.len() <= gdigits.len(),
            digits@ == gdigits.take(digits@.len() as int),
            decimal_text(n as int) == Seq::new(
                gdigits.len(),
                |i: int| digit_char(gdigits[gdigits.len() - 1 - i] as int),
            ),
            s@ =~= decimal_text(n as int).take(gdigits.len() - digits@.len()),
        decreases digits.len(),
    {
        let ghost k = gdigits.len() - digits@.len();
        let ghost l = digits@.len() as int;
        let ghost odigits = digits@;
        match digits.pop() {
            Some(d) => {
                proof {
                    assert(d == odigits[l - 1]);
                    assert(odigits[l - 1] == gdigits.take(l)[l - 1]);
                    assert(d == gdigits[l - 1]);
                    assert(digits@ =~= gdigits.take(l - 1));
                    assert(decimal_text(n as int)[k] == digit_char(gdigits[l - 1] as int));
                }
                append_digit(&mut s, d);
                proof {
                    assert(s@ =~= decimal_text(n as int).take(k + 1));
                }
            },
            None => {},
        }
    }
    proof {
        assert(s@ =~= decimal_text(n as int));
    }
    s
}

impl Column for String {
    open spec fn resolve(&self, header: Seq<Seq<char>>) -> Option<int> {
        first_match(header, self@)
    }

    open spec fn describe_name(&self) -> Seq<char> {
        self@
    }

    fn find(&self, cols: &Vec<String>) -> (r: Option<usize>) {
        find_name(cols, self.as_str())
    }

    fn describe(&self) -> (r: String) {
        self.clone()
    }
}

impl Column for &str {
    open spec fn resolve(&self, header: Seq<Seq<char>>) -> Option<int> {
        first_match(header, self@)
    }

    open spec fn describe_name(&self) -> Seq<char> {
        self@
    }

    fn find(&self, cols: &Vec<String>) -> (r: Option<usize>) {
        find_name(cols, self)
    }

    fn describe(&self) -> (r: String) {
        String::from_str(self)
    }
}

impl Column for usize {
    open spec fn resolve(&self, header: Seq<Seq<char>>) -> Option<int> {
        if *self < header.len() {
            Some(*self as int)
        } else {
            None
        }
    }

    open spec fn describe_name(&self) -> Seq<char> {
        decimal_text(*self as int)
    }

    fn find(&self, cols: &Vec<String>) -> (r: Option<usize>) {
        if *self < cols.len() {
            Some(*self)
        } else {
            None
        }
    }

    fn describe(&self) -> (r: String) {
        decimal_string(*self)
    }
}

} // verus!
