use vstd::prelude::*;

use crate::text::{chars_of, lemma_texts_push, string_of, texts};

verus! {

/// The kinds of char that the line grammar strips.
#[derive(Clone, Copy, Debug, PartialEq, Eq)]
pub enum CharClass {
    /// The line feed.
    Newline,
    /// The two square brackets.
    Bracket,
    /// The chars with the Unicode property White_Space.
    WhiteSpace,
}

/// The chars with the Unicode property White_Space.
pub open spec fn is_white_space(c: char) -> bool {
    let u = c as u32;
    ||| 0x09 <= u <= 0x0D
    ||| u == 0x20
    ||| u == 0x85
    ||| u == 0xA0
    ||| u == 0x1680
    ||| 0x2000 <= u <= 0x200A
    ||| u == 0x2028
    ||| u == 0x2029
    ||| u == 0x202F
    ||| u == 0x205F
    ||| u == 0x3000
}

impl CharClass {
    /// Whether `c` belongs to the class.
    pub open spec fn holds(self, c: char) -> bool {
        match self {
            CharClass::Newline => c == '\n',
            CharClass::Bracket => c == '[' || c == ']',
            CharClass::WhiteSpace => is_white_space(c),
        }
    }

    /// Whether `c` belongs to the class.
    pub fn contains(self, c: char) -> (found: bool)
        ensures
            found == self.holds(c),
    {
        match self {
            CharClass::Newline => c == '\n',
            CharClass::Bracket => c == '[' || c == ']',
            CharClass::WhiteSpace => {
                let u: u32 = c as u32;
                (0x09 <= u && u <= 0x0D) || u == 0x20 || u == 0x85 || u == 0xA0 || u == 0x1680 || (
                0x2000 <= u && u <= 0x200A) || u == 0x2028 || u == 0x2029 || u == 0x202F || u
                    == 0x205F || u == 0x3000
            },
        }
    }
}

/// How many chars at the start of `s` belong to `class`.
pub open spec fn leading(s: Seq<char>, class: CharClass) -> nat
    decreases s.len(),
{
    if s.len() > 0 && class.holds(s.first()) {
        1 + leading(s.drop_first(), class)
    } else {
        0
    }
}

/// How many chars at the end of `s` belong to `class`.
pub open spec fn trailing(s: Seq<char>, class: CharClass) -> nat
    decreases s.len(),
{
    if s.len() > 0 && class.holds(s.last()) {
        1 + trailing(s.drop_last(), class)
    } else {
        0
    }
}

/// `s` without the chars of `class` at its start.
pub open spec fn trim_start(s: Seq<char>, class: CharClass) -> Seq<char> {
    s.skip(leading(s, class) as int)
}

/// `s` without the chars of `class` at its end.
pub open spec fn trim_end(s: Seq<char>, class: CharClass) -> Seq<char> {
    s.take(s.len() - trailing(s, class))
}

/// `s` without the chars of `class` at both ends.
pub open spec fn trim(s: Seq<char>, class: CharClass) -> Seq<char> {
    trim_end(trim_start(s, class), class)
}

/// The comma-separated fields of `s`, in order: one more than it has commas.
pub open spec fn fields(s: Seq<char>) -> Seq<Seq<char>>
    decreases s.len(),
{
    if s.len() == 0 {
        seq![Seq::empty()]
    } else {
        let before = fields(s.drop_last());
        if s.last() == ',' {
            before.push(Seq::empty())
        } else {
            before.drop_last().push(before.last().push(s.last()))
        }
    }
}

/// What a line holds between its brackets: the line without the newlines at
/// its end, then without the brackets at both ends.
pub open spec fn payload(line: Seq<char>) -> Seq<char> {
    trim(trim_end(line, CharClass::Newline), CharClass::Bracket)
}

/// Each of `fields` without the white space around it.
pub open spec fn trimmed(fields: Seq<Seq<char>>) -> Seq<Seq<char>> {
    Seq::new(fields.len(), |i: int| trim(fields[i], CharClass::WhiteSpace))
}

/// The tokens of a line: the fields of its payload, each without the white
/// space around it.
pub open spec fn line_tokens(line: Seq<char>) -> Seq<Seq<char>> {
    trimmed(fields(payload(line)))
}

/// The first `k` chars belong to the class and the next one, if any, does
/// not: `k` is the leading count.
pub proof fn lemma_leading_is(s: Seq<char>, class: CharClass, k: int)
    requires
        0 <= k <= s.len(),
        forall|i: int| 0 <= i < k ==> class.holds(#[trigger] s[i]),
        k < s.len() ==> !class.holds(s[k]),
    ensures
        leading(s, class) == k,
    decreases k,
{
    if k > 0 {
        let rest = s.drop_first();
        assert forall|i: int| 0 <= i < k - 1 implies class.holds(#[trigger] rest[i]) by {}
        lemma_leading_is(rest, class, k - 1);
    }
}

/// The last `k` chars belong to the class and the one before them, if any,
/// does not: `k` is the trailing count.
pub proof fn lemma_trailing_is(s: Seq<char>, class: CharClass, k: int)
    requires
        0 <= k <= s.len(),
        forall|i: int| s.len() - k <= i < s.len() ==> class.holds(#[trigger] s[i]),
        k < s.len() ==> !class.holds(s[s.len() - k - 1]),
    ensures
        trailing(s, class) == k,
    decreases k,
{
    if k > 0 {
        let rest = s.drop_last();
        assert forall|i: int| rest.len() - (k - 1) <= i < rest.len() implies class.holds(
            #[trigger] rest[i],
        ) by {}
        lemma_trailing_is(rest, class, k - 1);
    }
}

/// No comma occurs in `s`.
pub open spec fn comma_free(s: Seq<char>) -> bool {
    forall|i: int| 0 <= i < s.len() ==> s[i] != ','
}

/// Text without a comma is its own single field.
pub proof fn lemma_fields_of_comma_free(s: Seq<char>)
    requires
        comma_free(s),
    ensures
        fields(s) == seq![s],
    decreases s.len(),
{
    if s.len() > 0 {
        let init = s.drop_last();
        lemma_fields_of_comma_free(init);
        assert(init.push(s.last()) =~= s);
    } else {
        assert(s =~= Seq::<char>::empty());
    }
}

/// A comma parts the fields before it from the fields after it.
pub proof fn lemma_fields_around_comma(before: Seq<char>, after: Seq<char>)
    ensures
        fields(before.push(',') + after) == fields(before) + fields(after),
        fields(after).len() > 0,
    decreases after.len(),
{
    if after.len() == 0 {
        assert(before.push(',').drop_last() =~= before);
    } else {
        let init = after.drop_last();
        lemma_fields_around_comma(before, init);
        assert((before.push(',') + after).drop_last() =~= before.push(',') + init);
    }
}

/// The index behind the chars of `class` that start `chars[lo..hi]`.
fn skip_leading(chars: &Vec<char>, lo: usize, hi: usize, class: CharClass) -> (k: usize)
    requires
        lo <= hi <= chars.len(),
    ensures
        lo <= k <= hi,
        k - lo == leading(chars@.subrange(lo as int, hi as int), class),
        chars@.subrange(k as int, hi as int) == trim_start(
            chars@.subrange(lo as int, hi as int),
            class,
        ),
{
    let ghost s = chars@.subrange(lo as int, hi as int);
    let mut k = lo;
    while k < hi && class.contains(chars[k])
        invariant
            lo <= k <= hi <= chars.len(),
            s == chars@.subrange(lo as int, hi as int),
            forall|i: int| 0 <= i < k - lo ==> class.holds(#[trigger] s[i]),
        decreases hi - k,
    {
        k = k + 1;
    }
    proof {
        lemma_leading_is(s, class, k - lo);
    }
    k
}

/// The index of the first of the chars of `class` that end `chars[lo..hi]`.
fn skip_trailing(chars: &Vec<char>, lo: usize, hi: usize, class: CharClass) -> (k: usize)
    requires
        lo <= hi <= chars.len(),
    ensures
        lo <= k <= hi,
        hi - k == trailing(chars@.subrange(lo as int, hi as int), class),
        chars@.subrange(lo as int, k as int) == trim_end(
            chars@.subrange(lo as int, hi as int),
            class,
        ),
{
    let ghost s = chars@.subrange(lo as int, hi as int);
    let mut k = hi;
    while k > lo && class.contains(chars[k - 1])
        invariant
            lo <= k <= hi <= chars.len(),
            s == chars@.subrange(lo as int, hi as int),
            forall|i: int| k - lo <= i < s.len() ==> class.holds(#[trigger] s[i]),
        decreases k - lo,
    {
        k = k - 1;
    }
    proof {
        lemma_trailing_is(s, class, hi - k);
    }
    k
}

/// `chars[lo..hi]` without the white space around it, as a string.
fn trimmed_token(chars: &Vec<char>, lo: usize, hi: usize) -> (token: String)
    requires
        lo <= hi <= chars.len(),
    ensures
        token@ == trim(chars@.subrange(lo as int, hi as int), CharClass::WhiteSpace),
{
    let from = skip_leading(chars, lo, hi, CharClass::WhiteSpace);
    let to = skip_trailing(chars, from, hi, CharClass::WhiteSpace);
    let mut token: Vec<char> = Vec::with_capacity(to - from);
    let mut i = from;
    while i < to
        invariant
            from <= i <= to <= chars.len(),
            token@ == chars@.subrange(from as int, i as int),
        decreases to - i,
    {
        token.push(chars[i]);
        i = i + 1;
    }
    string_of(token)
}

/// What one more char does to the fields of a text.
proof fn lemma_fields_push(s: Seq<char>, c: char)
    ensures
        fields(s).len() > 0,
        c == ',' ==> fields(s.push(c)) == fields(s).push(Seq::empty()),
        c != ',' ==> fields(s.push(c)) == fields(s).drop_last().push(fields(s).last().push(c)),
    decreases s.len(),
{
    assert(s.push(c).drop_last() =~= s);
    if s.len() > 0 {
        lemma_fields_push(s.drop_last(), s.last());
    }
}

/// Trimming one more field.
proof fn lemma_trimmed_push(fields: Seq<Seq<char>>, field: Seq<char>)
    ensures
        trimmed(fields.push(field)) == trimmed(fields).push(trim(field, CharClass::WhiteSpace)),
{
}

/// The bounds of the payload of a line: `chars[start..end]` is what the
/// line holds between its brackets.
fn payload_bounds(chars: &Vec<char>) -> (bounds: (usize, usize))
    ensures
        bounds.0 <= bounds.1 <= chars.len(),
        chars@.subrange(bounds.0 as int, bounds.1 as int) == payload(chars@),
{
    let unterminated = skip_trailing(chars, 0, chars.len(), CharClass::Newline);
    let start = skip_leading(chars, 0, unterminated, CharClass::Bracket);
    let end = skip_trailing(chars, start, unterminated, CharClass::Bracket);
    proof {
        assert(chars@.subrange(0, chars@.len() as int) =~= chars@);
    }
    (start, end)
}

/// The fields of `chars[start..end]`, each trimmed of white space.
fn trimmed_fields(chars: &Vec<char>, start: usize, end: usize) -> (tokens: Vec<String>)
    requires
        start <= end <= chars.len(),
    ensures
        texts(tokens@) == trimmed(fields(chars@.subrange(start as int, end as int))),
        tokens@.len() > 0,
{
    let ghost mut done: Seq<Seq<char>> = Seq::empty();
    let ghost mut seen: Seq<char> = Seq::empty();
    let mut tokens: Vec<String> = Vec::new();
    let mut lo = start;
    let mut i = start;
    proof {
        assert(fields(seen) =~= done.push(Seq::<char>::empty()));
        assert(texts(tokens@) =~= trimmed(done));
    }
    while i < end
        invariant
            start <= lo <= i <= end <= chars.len(),
            seen == chars@.subrange(start as int, i as int),
            fields(seen) == done.push(chars@.subrange(lo as int, i as int)),
            texts(tokens@) == trimmed(done),
        decreases end - i,
    {
        let c = chars[i];
        let ghost field = chars@.subrange(lo as int, i as int);
        proof {
            lemma_fields_push(seen, c);
            seen = seen.push(c);
        }
        if c == ',' {
            let token = trimmed_token(chars, lo, i);
            proof {
                lemma_texts_push(tokens@, token);
                lemma_trimmed_push(done, field);
                done = done.push(field);
                assert(chars@.subrange(i + 1, i + 1) =~= Seq::<char>::empty());
            }
            tokens.push(token);
            lo = i + 1;
        } else {
            proof {
                assert(field.push(c) =~= chars@.subrange(lo as int, i + 1));
            }
        }
        i = i + 1;
    }
    let token = trimmed_token(chars, lo, end);
    proof {
        lemma_texts_push(tokens@, token);
        lemma_trimmed_push(done, chars@.subrange(lo as int, end as int));
    }
    tokens.push(token);
    tokens
}

/// Splits one line into its tokens.
///
/// The newlines at the end of the line and the brackets at both ends are
/// dropped; what is left is split at each comma, and each field is
/// trimmed of white space. A line always has at least one token, which may
/// be empty.
pub fn split_line(line: &str) -> (tokens: Vec<String>)
    ensures
        texts(tokens@) == line_tokens(line@),
        tokens@.len() > 0,
{
    let chars = chars_of(line);
    let (start, end) = payload_bounds(&chars);
    trimmed_fields(&chars, start, end)
}

/// The values of the tokens that parsed, in token order.
pub open spec fn parsed_values(outcomes: Seq<Option<u64>>) -> Seq<u64> {
    outcomes.filter_map(|outcome: Option<u64>| outcome)
}

/// The indices of the tokens that did not parse, ascending.
pub open spec fn failed_tokens(outcomes: Seq<Option<u64>>) -> Seq<int> {
    Seq::new(outcomes.len(), |i: int| i).filter(|i: int| outcomes[i] is None)
}

/// What became of the tokens of one line: the values that parsed, and which
/// tokens did not.
pub struct ParsedLine {
    /// The values of the tokens that parsed, in token order.
    pub values: Vec<u64>,
    /// The indices of the tokens that did not parse, ascending.
    pub failed: Vec<usize>,
}

impl ParsedLine {
    /// Sorts the outcomes of parsing each token of a line, `None` for a
    /// token that is no number: a failed token is skipped and noted, and
    /// the values of the others are kept in order.
    #[verifier::loop_isolation(false)]
    pub fn collect(outcomes: &Vec<Option<u64>>) -> (parsed: ParsedLine)
        ensures
            parsed.values@ == parsed_values(outcomes@),
            parsed.failed@.map_values(|i: usize| i as int) == failed_tokens(outcomes@),
            parsed.values@.len() + parsed.failed@.len() == outcomes@.len(),
    {
        let ghost unwrap = |outcome: Option<u64>| outcome;
        let ghost indices = Seq::new(outcomes@.len(), |i: int| i);
        let ghost is_failed = |i: int| outcomes@[i] is None;
        let ghost widen = |i: usize| i as int;
        let mut values: Vec<u64> = Vec::new();
        let mut failed: Vec<usize> = Vec::new();
        let n = outcomes.len();
        let mut i: usize = 0;
        proof {
            reveal(Seq::filter);
        }
        while i < n
            invariant
                n == outcomes@.len(),
                0 <= i <= n,
                values@ == outcomes@.take(i as int).filter_map(unwrap),
                failed@.map_values(widen) == indices.take(i as int).filter(is_failed),
                values@.len() + failed@.len() == i,
            decreases n - i,
        {
            proof {
                assert(outcomes@.take(i as int + 1).drop_last() =~= outcomes@.take(i as int));
                assert(indices.take(i as int + 1) =~= indices.take(i as int).push(i as int));
                Seq::lemma_filter_push(indices.take(i as int), i as int, is_failed);
            }
            match outcomes[i] {
                Some(value) => {
                    values.push(value);
                },
                None => {
                    failed.push(i);
                },
            }
            i = i + 1;
        }
        proof {
            assert(outcomes@.take(n as int) =~= outcomes@);
            assert(indices.take(n as int) =~= indices);
        }
        ParsedLine { values, failed }
    }
}

} // verus!
