use vstd::prelude::*;

use crate::text::{str_eq, to_owned_string};

verus! {

/// Whether `c` is an ASCII decimal digit.
pub open spec fn is_digit(c: char) -> bool {
    '0' <= c && c <= '9'
}

/// The value of the decimal numeral `digits`, most significant digit first.
pub open spec fn digits_value(digits: Seq<char>) -> int
    decreases digits.len(),
{
    if digits.len() == 0 {
        0
    } else {
        digits_value(digits.drop_last()) * 10 + (digits.last() as int - '0' as int)
    }
}

/// The `i64` denoted by `s`: an optional `+` or `-` followed by one or more
/// ASCII digits, with nothing else, whose value fits in `i64`.
pub open spec fn decimal_i64(s: Seq<char>) -> Option<i64> {
    let negative = s.len() > 0 && s[0] == '-';
    let digits = if s.len() > 0 && (s[0] == '-' || s[0] == '+') {
        s.drop_first()
    } else {
        s
    };
    let magnitude = digits_value(digits);
    let value = if negative {
        -magnitude
    } else {
        magnitude
    };
    if digits.len() == 0 || !(forall|i: int| 0 <= i < digits.len() ==> is_digit(digits[i])) {
        None
    } else if value < i64::MIN || value > i64::MAX {
        None
    } else {
        Some(value as i64)
    }
}

/// `found` is a value whose view is `expected`, or both are absent.
pub open spec fn viewed_as<A: View>(found: Option<A>, expected: Option<A::V>) -> bool {
    match (found, expected) {
        (Some(v), Some(w)) => v@ == w,
        (None, None) => true,
        _ => false,
    }
}

/// A type whose values can be read from the text of a raw cell.
pub trait ParseCell: Sized + View {
    /// The value that `raw` denotes, if it is well formed.
    spec fn parse_view(raw: Seq<char>) -> Option<Self::V>;

    fn parse_cell(raw: &str) -> (r: Option<Self>)
        ensures
            viewed_as(r, Self::parse_view(raw@)),
    ;
}

/// Calls `str::parse::<i64>`. Rust documents that it accepts an optional `+`
/// or `-` sign followed by one or more ASCII digits, with no other characters,
/// and fails when the value does not fit in `i64`; that is what the contract
/// states.
#[verifier::external_body]
fn parse_i64(raw: &str) -> (r: Option<i64>)
    ensures
        r == decimal_i64(raw@),
{
    raw.parse::<i64>().ok()
}

impl ParseCell for i64 {
    open spec fn parse_view(raw: Seq<char>) -> Option<i64> {
        decimal_i64(raw)
    }

    fn parse_cell(raw: &str) -> (r: Option<i64>) {
        parse_i64(raw)
    }
}

impl ParseCell for bool {
    open spec fn parse_view(raw: Seq<char>) -> Option<bool> {
        if raw == "true"@ {
            Some(true)
        } else if raw == "false"@ {
            Some(false)
        } else {
            None
        }
    }

    fn parse_cell(raw: &str) -> (r: Option<bool>) {
        if str_eq(raw, "true") {
            Some(true)
        } else if str_eq(raw, "false") {
            Some(false)
        } else {
            None
        }
    }
}

impl ParseCell for String {
    open spec fn parse_view(raw: Seq<char>) -> Option<Seq<char>> {
        Some(raw)
    }

    fn parse_cell(raw: &str) -> (r: Option<String>) {
        Some(to_owned_string(raw))
    }
}

/// The cells `raw` denotes as values of `T`, or the text of the first present
/// cell that does not parse.
pub open spec fn parse_cells<T: ParseCell>(raw: Seq<Option<String>>) -> Result<
    Seq<Option<T::V>>,
    Seq<char>,
>
    decreases raw.len(),
{
    if raw.len() == 0 {
        Ok(Seq::empty())
    } else {
        match parse_cells::<T>(raw.drop_last()) {
            Err(e) => Err(e),
            Ok(prefix) => match raw.last() {
                None => Ok(prefix.push(None)),
                Some(s) => match T::parse_view(s@) {
                    Some(v) => Ok(prefix.push(Some(v))),
                    None => Err(s@),
                },
            },
        }
    }
}

/// The views of a sequence of optional values.
pub open spec fn view_cells<T: View>(cells: Seq<Option<T>>) -> Seq<Option<T::V>> {
    cells.map_values(
        |c: Option<T>|
            match c {
                Some(v) => Some(v@),
                None => None,
            },
    )
}

/// Once a prefix of the cells fails to parse, so do all the cells.
pub proof fn lemma_parse_failure_extends<T: ParseCell>(raw: Seq<Option<String>>, n: int)
    requires
        0 <= n <= raw.len(),
        parse_cells::<T>(raw.take(n)) is Err,
    ensures
        parse_cells::<T>(raw) == parse_cells::<T>(raw.take(n)),
    decreases raw.len() - n,
{
    if n < raw.len() {
        assert(raw.take(n + 1).drop_last() =~= raw.take(n));
        lemma_parse_failure_extends::<T>(raw, n + 1);
    } else {
        assert(raw.take(n) =~= raw);
    }
}

/// Parses every present cell of `raw` as a `T`, stopping at the first cell
/// that does not parse, whose text is returned.
pub fn parse_raw_cells<T: ParseCell>(raw: &Vec<Option<String>>) -> (r: Result<
    Vec<Option<T>>,
    String,
>)
    ensures
        match parse_cells::<T>(raw@) {
            Ok(cells) => r matches Ok(out) && view_cells(out@) == cells,
            Err(text) => r matches Err(bad) && bad@ == text,
        },
{
    let mut out: Vec<Option<T>> = Vec::new();
    let mut i: usize = 0;
    assert(view_cells(out@) =~= Seq::<Option<T::V>>::empty());
    assert(raw@.take(0) =~= Seq::<Option<String>>::empty());
    while i < raw.len()
        invariant
            i <= raw@.len(),
            parse_cells::<T>(raw@.take(i as int)) == Ok::<Seq<Option<T::V>>, Seq<char>>(
                view_cells(out@),
            ),
        decreases raw@.len() - i,
    {
        assert(raw@.take(i as int + 1).drop_last() =~= raw@.take(i as int));
        assert(raw@.take(i as int + 1).last() == raw@[i as int]);
        let ghost prev = out@;
        match &raw[i] {
            None => {
                out.push(None);
                assert(view_cells(out@) =~= view_cells(prev).push(None));
            },
            Some(s) => {
                match T::parse_cell(s.as_str()) {
                    Some(v) => {
                        out.push(Some(v));
                        assert(view_cells(out@) =~= view_cells(prev).push(Some(v@)));
                    },
                    None => {
                        proof {
                            lemma_parse_failure_extends::<T>(raw@, i as int + 1);
                        }
                        return Err(s.clone());
                    },
                }
            },
        }
        i = i + 1;
    }
    assert(raw@.take(i as int) =~= raw@);
    Ok(out)
}

/// `cells` is what `parse` made of the cells of `raw`: missing cells stay
/// missing, and every present cell holds a value that `parse` returned for it.
pub open spec fn parsed_with<T, F: Fn(&String) -> Option<T>>(
    parse: F,
    raw: Seq<Option<String>>,
    cells: Seq<Option<T>>,
) -> bool {
    &&& cells.len() == raw.len()
    &&& forall|i: int|
        #![trigger raw[i]]
        0 <= i < raw.len() ==> match raw[i] {
            None => cells[i] is None,
            Some(s) => cells[i] is Some && call_ensures(parse, (&s,), cells[i]),
        }
}

/// `parse` returned a value for every present cell of `raw` before position
/// `i`.
pub open spec fn parsed_before<T, F: Fn(&String) -> Option<T>>(
    parse: F,
    raw: Seq<Option<String>>,
    i: int,
) -> bool {
    forall|j: int|
        #![trigger raw[j]]
        0 <= j < i ==> match raw[j] {
            None => true,
            Some(t) => exists|v: T| call_ensures(parse, (&t,), Some(v)),
        }
}

/// The first present cell of `raw` for which `parse` returned `None` has the
/// text `text`: `parse` returned a value for every present cell before it.
pub open spec fn rejected_by<T, F: Fn(&String) -> Option<T>>(
    parse: F,
    raw: Seq<Option<String>>,
    text: Seq<char>,
) -> bool {
    exists|i: int|
        0 <= i < raw.len() && (#[trigger] raw[i] matches Some(s) && s@ == text && call_ensures(
            parse,
            (&s,),
            None,
        )) && parsed_before(parse, raw, i)
}

/// Parses every present cell of `raw` with `parse`, stopping at the first cell
/// for which it returns `None`; that cell's text is returned.
pub fn parse_raw_cells_with<T, F: Fn(&String) -> Option<T>>(
    raw: &Vec<Option<String>>,
    parse: &F,
) -> (r: Result<Vec<Option<T>>, String>)
    requires
        forall|s: &String| call_requires(*parse, (s,)),
    ensures
        r matches Ok(out) ==> parsed_with(*parse, raw@, out@),
        r matches Err(text) ==> rejected_by(*parse, raw@, text@),
{
    let mut out: Vec<Option<T>> = Vec::new();
    let mut i: usize = 0;
    while i < raw.len()
        invariant
            i <= raw@.len(),
            out@.len() == i,
            forall|s: &String| call_requires(*parse, (s,)),
            forall|j: int|
                #![trigger raw@[j]]
                0 <= j < i ==> match raw@[j] {
                    None => out@[j] is None,
                    Some(s) => out@[j] is Some && call_ensures(*parse, (&s,), out@[j]),
                },
        decreases raw@.len() - i,
    {
        match &raw[i] {
            None => {
                out.push(None);
            },
            Some(s) => {
                let parsed = parse(s);
                match parsed {
                    Some(v) => {
                        out.push(Some(v));
                    },
                    None => {
                        let text = s.clone();
                        assert(raw@[i as int] matches Some(t) && t@ == text@ && call_ensures(
                            *parse,
                            (&t,),
                            None,
                        ));
                        assert forall|j: int|
                            #![trigger raw@[j]]
                            0 <= j < i implies match raw@[j] {
                                None => true,
                                Some(t) => exists|v: T| call_ensures(*parse, (&t,), Some(v)),
                            } by {
                            if let Some(t) = raw@[j] {
                                let v = out@[j]->0;
                                assert(call_ensures(*parse, (&t,), Some(v)));
                            }
                        }
                        assert(parsed_before(*parse, raw@, i as int));
                        return Err(text);
                    },
                }
            },
        }
        i = i + 1;
    }
    Ok(out)
}

} // verus!

verus! {

/// A cell value that can be copied exactly.
pub trait CellValue: Sized {
    fn duplicate(&self) -> (r: Self)
        ensures
            r == *self,
    ;
}

impl CellValue for i64 {
    fn duplicate(&self) -> (r: i64) {
        *self
    }
}

impl CellValue for bool {
    fn duplicate(&self) -> (r: bool) {
        *self
    }
}

impl CellValue for crate::scalar::Real {
    fn duplicate(&self) -> (r: crate::scalar::Real) {
        *self
    }
}

impl CellValue for String {
    fn duplicate(&self) -> (r: String) {
        self.clone()
    }
}

/// An exact copy of an optional cell.
pub fn duplicate_cell<T: CellValue>(cell: &Option<T>) -> (r: Option<T>)
    ensures
        r == *cell,
{
    match cell {
        Some(v) => Some(v.duplicate()),
        None => None,
    }
}

} // verus!
