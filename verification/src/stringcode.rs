//! Short textual codes: a trait for values with a canonical code, and
//! comma-separated lists of coded values.

use vstd::prelude::*;

verus! {

/// A value with a canonical short textual code, such as a suit letter or
/// a card's two-character code.
pub trait HasStringCode: Sized {
    /// The canonical code of this value, as a sequence of characters.
    spec fn code(&self) -> Seq<char>;

    /// The value, if any, that a sequence of characters decodes to.
    spec fn of_code(s: Seq<char>) -> Option<Self>;

    /// Parses a code.
    fn from_str(s: String) -> (r: Option<Self>)
        ensures
            r == Self::of_code(s@),
    ;

    /// Formats the canonical code.
    fn to_str(&self) -> (r: String)
        ensures
            r@ == self.code(),
    ;

    /// Decides whether two coded values are equal.
    fn code_eq(&self, other: &Self) -> (r: bool)
        ensures
            r == (self == other),
    ;
}

/// The index of the first comma in `s`, or `s.len()` when there is none.
pub open spec fn first_comma(s: Seq<char>) -> nat
    decreases s.len(),
{
    if s.len() == 0 {
        0
    } else if s[0] == ',' {
        0
    } else {
        (1 + first_comma(s.drop_first())) as nat
    }
}

/// The comma-separated tokens of `s`. Splitting never yields fewer than
/// one token: an empty string is one empty token.
pub open spec fn split_codes(s: Seq<char>) -> Seq<Seq<char>>
    decreases s.len(),
{
    let i = first_comma(s) as int;
    if i >= s.len() {
        seq![s]
    } else {
        seq![s.subrange(0, i)] + split_codes(s.subrange(i + 1, s.len() as int))
    }
}

/// Decodes each token in turn; the result is `None` as soon as one token
/// fails to decode.
pub open spec fn parse_items<T: HasStringCode>(tokens: Seq<Seq<char>>) -> Option<Seq<T>>
    decreases tokens.len(),
{
    if tokens.len() == 0 {
        Some(Seq::empty())
    } else {
        match T::of_code(tokens[0]) {
            None => None,
            Some(t) => match parse_items::<T>(tokens.drop_first()) {
                None => None,
                Some(rest) => Some(seq![t] + rest),
            },
        }
    }
}

/// `done` prepended to the items of `o`, when `o` holds any.
pub open spec fn prepend_items<T>(done: Seq<T>, o: Option<Seq<T>>) -> Option<Seq<T>> {
    match o {
        None => None,
        Some(v) => Some(done + v),
    }
}

proof fn lemma_first_comma_at(s: Seq<char>, m: int)
    requires
        0 <= m <= s.len(),
        forall|k: int| 0 <= k < m ==> s[k] != ',',
        m < s.len() ==> s[m] == ',',
    ensures
        first_comma(s) == m,
    decreases s.len(),
{
    if s.len() == 0 {
    } else if s[0] == ',' {
        assert(m == 0);
    } else {
        assert(m >= 1);
        lemma_first_comma_at(s.drop_first(), m - 1);
    }
}

/// A list of coded values, parsed from a comma-separated string.
#[derive(Debug)]
pub struct StringCodes<T: HasStringCode> {
    _inner: Vec<T>,
}

impl<T: HasStringCode> View for StringCodes<T> {
    type V = Seq<T>;

    closed spec fn view(&self) -> Seq<T> {
        self._inner@
    }
}

impl<T: HasStringCode> StringCodes<T> {
    /// An empty list.
    pub fn new() -> (r: Self)
        ensures
            r@ == Seq::<T>::empty(),
    {
        StringCodes { _inner: Vec::new() }
    }

    /// Parses a comma-separated string of codes, such as `"H,S"`;
    /// `None` when any token between commas fails to decode.
    pub fn from_str(s: String) -> (r: Option<Self>)
        ensures
            match r {
                Some(codes) => parse_items::<T>(split_codes(s@)) == Some(codes@),
                None => parse_items::<T>(split_codes(s@)) is None,
            },
    {
        let st: &str = s.as_str();
        let n: usize = st.unicode_len();
        let mut result: Vec<T> = Vec::new();
        let mut pos: usize = 0;
        proof {
            assert(s@.subrange(0, n as int) =~= s@);
            let po = parse_items::<T>(split_codes(s@));
            if po is Some {
                assert(result@ + po->Some_0 =~= po->Some_0);
            }
        }
        loop
            invariant
                pos <= n,
                n == s@.len(),
                st@ == s@,
                prepend_items(
                    result@,
                    parse_items::<T>(split_codes(s@.subrange(pos as int, n as int))),
                ) == parse_items::<T>(split_codes(s@)),
            decreases n - pos,
        {
            let ghost rest = s@.subrange(pos as int, n as int);
            let mut j: usize = pos;
            while j < n && st.get_char(j) != ','
                invariant
                    pos <= j <= n,
                    n == s@.len(),
                    st@ == s@,
                    forall|k: int| pos <= k < j ==> s@[k] != ',',
                decreases n - j,
            {
                j = j + 1;
            }
            let ghost fc = (j - pos) as int;
            proof {
                assert(forall|k: int| 0 <= k < fc ==> rest[k] != ',');
                lemma_first_comma_at(rest, fc);
            }
            let token: &str = st.substring_char(pos, j);
            let item = T::from_str(token.to_owned());
            if j == n {
                proof {
                    assert(token@ =~= rest);
                    assert(split_codes(rest) == seq![rest]);
                    assert(seq![rest].drop_first() =~= Seq::<Seq<char>>::empty());
                }
                match item {
                    None => {
                        return None;
                    },
                    Some(t) => {
                        result.push(t);
                        proof {
                            assert(parse_items::<T>(Seq::<Seq<char>>::empty()) == Some(Seq::<
                                T,
                            >::empty()));
                            assert(parse_items::<T>(split_codes(rest)) == Some(seq![t] + Seq::<
                                T,
                            >::empty()));
                            assert(result@ =~= result@.subrange(0, result@.len() - 1) + (seq![t]
                                + Seq::<T>::empty()));
                        }
                        return Some(StringCodes { _inner: result });
                    },
                }
            } else {
                let ghost rest2 = s@.subrange(j as int + 1, n as int);
                let ghost tok = rest.subrange(0, fc);
                let ghost ts = seq![tok] + split_codes(rest2);
                proof {
                    assert(token@ =~= tok);
                    assert(rest.subrange(fc + 1, rest.len() as int) =~= rest2);
                    assert(split_codes(rest) == ts);
                    assert(ts.drop_first() =~= split_codes(rest2));
                }
                match item {
                    None => {
                        proof {
                            assert(parse_items::<T>(ts) is None);
                        }
                        return None;
                    },
                    Some(t) => {
                        result.push(t);
                        pos = j + 1;
                        proof {
                            let po = parse_items::<T>(split_codes(rest2));
                            if po is Some {
                                let v = po->Some_0;
                                assert(parse_items::<T>(ts) == Some(seq![t] + v));
                                assert(result@.subrange(0, result@.len() - 1) + (seq![t] + v)
                                    =~= result@ + v);
                            }
                        }
                    },
                }
            }
        }
    }

    /// Whether the list holds `other`.
    pub fn contains(&self, other: &T) -> (r: bool)
        ensures
            r == self@.contains(*other),
    {
        let mut i: usize = 0;
        while i < self._inner.len()
            invariant
                i <= self._inner.len(),
                forall|k: int| 0 <= k < i ==> self._inner@[k] != *other,
            decreases self._inner.len() - i,
        {
            if self._inner[i].code_eq(other) {
                return true;
            }
            i = i + 1;
        }
        false
    }

    /// How many values the list holds.
    pub fn len(&self) -> (r: usize)
        ensures
            r == self@.len(),
    {
        self._inner.len()
    }
}

} // verus!
