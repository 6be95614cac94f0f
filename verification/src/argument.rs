//! The placeholder parser.
//!
//! A placeholder is a maximal occurrence of `%` followed by one or more
//! decimal digits (`%1`, `%27`, ...).  A raw string is split at every
//! placeholder into literal `sections`, and rewritten into a `format_string`
//! in which each placeholder `%<N>` becomes the named slot `{arg_<N>}`.
//!
//! A bare `%` that is not followed by a digit is ordinary literal text.  In
//! particular `%%` is not an escape: the first `%` is literal and the second
//! `%` is evaluated afresh as a potential placeholder start.  This is a
//! deliberate quirk of the format, kept for compatibility.

use vstd::prelude::*;

verus! {

/// A decimal digit, the only characters allowed after `%` in a placeholder.
pub open spec fn is_placeholder_digit(c: char) -> bool {
    48 <= c as u32 && c as u32 <= 57
}

/// A placeholder starts at position `i` of `s`: a `%` directly followed by a
/// decimal digit.
pub open spec fn placeholder_at(s: Seq<char>, i: int) -> bool {
    &&& 0 <= i
    &&& i + 1 < s.len()
    &&& s[i] == '%'
    &&& is_placeholder_digit(s[i + 1])
}

/// First position at or after `j` that does not hold a decimal digit (the end
/// of the maximal digit run starting at `j`).
pub open spec fn digits_end(s: Seq<char>, j: int) -> int
    decreases s.len() - j,
    when 0 <= j <= s.len()
{
    if j < s.len() && is_placeholder_digit(s[j]) {
        digits_end(s, j + 1)
    } else {
        j
    }
}

/// The named substitution slot written for a placeholder whose digits are
/// `digits`: `{arg_<digits>}`.
pub open spec fn arg_slot(digits: Seq<char>) -> Seq<char> {
    seq!['{', 'a', 'r', 'g', '_'] + digits + seq!['}']
}

/// The literal sections of `s` from position `i` on: the text runs obtained
/// by cutting at every placeholder, the matched `%<N>` tokens removed.  There
/// is always one more section than there are placeholders.
pub open spec fn sections_from(s: Seq<char>, i: int) -> Seq<Seq<char>>
    decreases s.len() - i,
    when 0 <= i <= s.len()
    via sections_from_decreases
{
    if i >= s.len() {
        seq![Seq::empty()]
    } else if placeholder_at(s, i) {
        seq![Seq::<char>::empty()] + sections_from(s, digits_end(s, i + 1))
    } else {
        let rest = sections_from(s, i + 1);
        seq![seq![s[i]] + rest.first()] + rest.drop_first()
    }
}

#[via_fn]
proof fn sections_from_decreases(s: Seq<char>, i: int) {
    if i < s.len() && placeholder_at(s, i) {
        lemma_digits_end(s, i + 1);
    }
}

/// The template of `s` from position `i` on: literal text copied verbatim,
/// every placeholder `%<N>` rewritten as `{arg_<N>}`.
pub open spec fn template_from(s: Seq<char>, i: int) -> Seq<char>
    decreases s.len() - i,
    when 0 <= i <= s.len()
    via template_from_decreases
{
    if i >= s.len() {
        Seq::empty()
    } else if placeholder_at(s, i) {
        arg_slot(s.subrange(i + 1, digits_end(s, i + 1))) + template_from(
            s,
            digits_end(s, i + 1),
        )
    } else {
        seq![s[i]] + template_from(s, i + 1)
    }
}

#[via_fn]
proof fn template_from_decreases(s: Seq<char>, i: int) {
    if i < s.len() && placeholder_at(s, i) {
        lemma_digits_end(s, i + 1);
    }
}

/// The sections of the whole raw string `s`.
pub open spec fn spec_sections(s: Seq<char>) -> Seq<Seq<char>> {
    sections_from(s, 0)
}

/// The template of the whole raw string `s`.
pub open spec fn spec_template(s: Seq<char>) -> Seq<char> {
    template_from(s, 0)
}

/// The digit run starting at `j` ends at `digits_end(s, j)`: every character
/// before it from `j` on is a digit, and it is the position of the first
/// non-digit (or the end of the string).
pub proof fn lemma_digits_end(s: Seq<char>, j: int)
    requires
        0 <= j <= s.len(),
    ensures
        j <= digits_end(s, j) <= s.len(),
        forall|k: int| j <= k < digits_end(s, j) ==> is_placeholder_digit(s[k]),
        digits_end(s, j) == s.len() || !is_placeholder_digit(s[digits_end(s, j)]),
    decreases s.len() - j,
{
    if j < s.len() && is_placeholder_digit(s[j]) {
        lemma_digits_end(s, j + 1);
    }
}

/// `digits_end` is pinned by its characterization: if everything in `[j, e)`
/// is a digit and `e` is the end of the string or a non-digit, then
/// `digits_end(s, j) == e`.
pub proof fn lemma_digits_end_unique(s: Seq<char>, j: int, e: int)
    requires
        0 <= j <= e <= s.len(),
        forall|k: int| j <= k < e ==> is_placeholder_digit(s[k]),
        e == s.len() || !is_placeholder_digit(s[e]),
    ensures
        digits_end(s, j) == e,
    decreases e - j,
{
    if j < e {
        assert(is_placeholder_digit(s[j]));
        lemma_digits_end_unique(s, j + 1, e);
    }
}

/// Splitting never yields an empty list: there is always at least the one
/// section before the end of the string.
pub proof fn lemma_sections_from_len(s: Seq<char>, i: int)
    requires
        0 <= i <= s.len(),
    ensures
        sections_from(s, i).len() >= 1,
    decreases s.len() - i,
{
    if i < s.len() {
        if placeholder_at(s, i) {
            lemma_digits_end(s, i + 1);
            lemma_sections_from_len(s, digits_end(s, i + 1));
        } else {
            lemma_sections_from_len(s, i + 1);
        }
    }
}

/// The number of placeholders of `s` from position `i` on.
pub open spec fn placeholder_count_from(s: Seq<char>, i: int) -> nat
    decreases s.len() - i,
    when 0 <= i <= s.len()
    via placeholder_count_from_decreases
{
    if i >= s.len() {
        0
    } else if placeholder_at(s, i) {
        1 + placeholder_count_from(s, digits_end(s, i + 1))
    } else {
        placeholder_count_from(s, i + 1)
    }
}

#[via_fn]
proof fn placeholder_count_from_decreases(s: Seq<char>, i: int) {
    if i < s.len() && placeholder_at(s, i) {
        lemma_digits_end(s, i + 1);
    }
}

/// The number of placeholders of the whole raw string `s`.
pub open spec fn spec_placeholder_count(s: Seq<char>) -> nat {
    placeholder_count_from(s, 0)
}

/// There is always exactly one more section than there are placeholders.
pub proof fn lemma_sections_count(s: Seq<char>)
    ensures
        spec_sections(s).len() == spec_placeholder_count(s) + 1,
{
    lemma_sections_count_from(s, 0);
}

proof fn lemma_sections_count_from(s: Seq<char>, i: int)
    requires
        0 <= i <= s.len(),
    ensures
        sections_from(s, i).len() == placeholder_count_from(s, i) + 1,
    decreases s.len() - i,
{
    if i < s.len() {
        if placeholder_at(s, i) {
            lemma_digits_end(s, i + 1);
            lemma_sections_count_from(s, digits_end(s, i + 1));
        } else {
            lemma_sections_count_from(s, i + 1);
        }
    }
}

/// The digit runs of the placeholders of `s` from position `i` on, in order
/// of occurrence, as written (no renumbering, no deduplication).
pub open spec fn placeholder_indices_from(s: Seq<char>, i: int) -> Seq<Seq<char>>
    decreases s.len() - i,
    when 0 <= i <= s.len()
    via placeholder_indices_from_decreases
{
    if i >= s.len() {
        Seq::empty()
    } else if placeholder_at(s, i) {
        seq![s.subrange(i + 1, digits_end(s, i + 1))] + placeholder_indices_from(
            s,
            digits_end(s, i + 1),
        )
    } else {
        placeholder_indices_from(s, i + 1)
    }
}

#[via_fn]
proof fn placeholder_indices_from_decreases(s: Seq<char>, i: int) {
    if i < s.len() && placeholder_at(s, i) {
        lemma_digits_end(s, i + 1);
    }
}

/// The digit runs of all placeholders of the raw string `s`, in order.
pub open spec fn spec_placeholder_indices(s: Seq<char>) -> Seq<Seq<char>> {
    placeholder_indices_from(s, 0)
}

/// Weave literal sections and placeholder digit runs back into one string:
/// a section, then `%` and the next digit run, and so on, ending with the
/// last section.
pub open spec fn interleave(sections: Seq<Seq<char>>, indices: Seq<Seq<char>>) -> Seq<char>
    decreases indices.len(),
{
    if indices.len() == 0 {
        if sections.len() == 0 {
            Seq::empty()
        } else {
            sections.first()
        }
    } else {
        (if sections.len() == 0 {
            Seq::<char>::empty()
        } else {
            sections.first()
        }) + seq!['%'] + indices.first() + interleave(sections.drop_first(), indices.drop_first())
    }
}

/// The split is lossless: weaving the sections back together with the
/// extracted placeholder digit runs reconstructs the raw string exactly.
pub proof fn lemma_lossless_reconstruction(s: Seq<char>)
    ensures
        interleave(spec_sections(s), spec_placeholder_indices(s)) == s,
{
    lemma_reconstruct_from(s, 0);
    assert(s.skip(0) =~= s);
}

proof fn lemma_reconstruct_from(s: Seq<char>, i: int)
    requires
        0 <= i <= s.len(),
    ensures
        interleave(sections_from(s, i), placeholder_indices_from(s, i)) == s.skip(i),
    decreases s.len() - i,
{
    if i >= s.len() {
        assert(interleave(sections_from(s, i), placeholder_indices_from(s, i)) =~= s.skip(i));
    } else if placeholder_at(s, i) {
        lemma_digits_end(s, i + 1);
        let e = digits_end(s, i + 1);
        lemma_reconstruct_from(s, e);
        let sects = sections_from(s, i);
        let inds = placeholder_indices_from(s, i);
        assert(sects.drop_first() =~~= sections_from(s, e));
        assert(inds.drop_first() =~~= placeholder_indices_from(s, e));
        assert(sects.first() =~= Seq::<char>::empty());
        assert(inds.first() =~= s.subrange(i + 1, e));
        assert(interleave(sects, inds) =~= s.skip(i));
    } else {
        lemma_reconstruct_from(s, i + 1);
        let sects = sections_from(s, i);
        let inds = placeholder_indices_from(s, i);
        let rest = sections_from(s, i + 1);
        lemma_sections_from_len(s, i + 1);
        assert(inds == placeholder_indices_from(s, i + 1));
        if inds.len() == 0 {
            assert(interleave(rest, inds) == rest.first());
            assert(interleave(sects, inds) == sects.first());
            assert(sects.first() =~= seq![s[i]] + rest.first());
            assert(interleave(sects, inds) =~= s.skip(i));
        } else {
            assert(sects.drop_first() =~~= rest.drop_first());
            assert(sects.first() =~= seq![s[i]] + rest.first());
            assert(interleave(sects, inds) =~= seq![s[i]] + interleave(rest, inds));
            assert(seq![s[i]] + s.skip(i + 1) =~= s.skip(i));
        }
    }
}

/// Scanning text that holds no placeholder leaves it in one piece: the only
/// section is the text itself and the template copies it verbatim.
proof fn lemma_scan_literal(s: Seq<char>, i: int)
    requires
        0 <= i <= s.len(),
        forall|j: int| i <= j < s.len() ==> !placeholder_at(s, j),
    ensures
        sections_from(s, i) == seq![s.skip(i)],
        template_from(s, i) == s.skip(i),
    decreases s.len() - i,
{
    if i >= s.len() {
        assert(sections_from(s, i) =~~= seq![s.skip(i)]);
        assert(template_from(s, i) =~= s.skip(i));
    } else {
        lemma_scan_literal(s, i + 1);
        assert(sections_from(s, i) =~~= seq![s.skip(i)]);
        assert(template_from(s, i) =~= s.skip(i));
    }
}

/// Scanning up to the first placeholder `p` cuts off the literal prefix
/// `s[i..p]`, rewrites the placeholder, and continues after its digits.
proof fn lemma_scan_to_placeholder(s: Seq<char>, i: int, p: int)
    requires
        0 <= i <= p,
        placeholder_at(s, p),
        forall|j: int| i <= j < p ==> !placeholder_at(s, j),
    ensures
        sections_from(s, i) == seq![s.subrange(i, p)] + sections_from(s, digits_end(s, p + 1)),
        template_from(s, i) == s.subrange(i, p) + arg_slot(
            s.subrange(p + 1, digits_end(s, p + 1)),
        ) + template_from(s, digits_end(s, p + 1)),
    decreases p - i,
{
    lemma_digits_end(s, p + 1);
    let e = digits_end(s, p + 1);
    if i == p {
        assert(sections_from(s, i) =~~= seq![s.subrange(i, p)] + sections_from(s, e));
        assert(template_from(s, i) =~= s.subrange(i, p) + arg_slot(s.subrange(p + 1, e))
            + template_from(s, e));
    } else {
        lemma_scan_to_placeholder(s, i + 1, p);
        assert(sections_from(s, i) =~~= seq![s.subrange(i, p)] + sections_from(s, e));
        assert(template_from(s, i) =~= s.subrange(i, p) + arg_slot(s.subrange(p + 1, e))
            + template_from(s, e));
    }
}

/// A raw string with no placeholder at all parses to itself: one single
/// section holding the whole string, and a template equal to the string.
pub proof fn lemma_parse_without_placeholders(s: Seq<char>)
    requires
        forall|i: int| !placeholder_at(s, i),
    ensures
        spec_sections(s) == seq![s],
        spec_template(s) == s,
{
    lemma_scan_literal(s, 0);
    assert(s.skip(0) =~= s);
    assert(spec_sections(s) =~~= seq![s]);
}

/// A raw string with exactly one placeholder, at position `p`, parses to two
/// sections (the text before `%<N>` and the text after its digits), and its
/// template is the string with `%<N>` replaced by `{arg_<N>}`.
pub proof fn lemma_parse_single_placeholder(s: Seq<char>, p: int)
    requires
        placeholder_at(s, p),
        forall|i: int| placeholder_at(s, i) ==> i == p,
    ensures
        spec_sections(s).len() == 2,
        spec_sections(s) == seq![s.take(p), s.skip(digits_end(s, p + 1))],
        spec_template(s) == s.take(p) + arg_slot(s.subrange(p + 1, digits_end(s, p + 1)))
            + s.skip(digits_end(s, p + 1)),
        spec_template(s) == spec_sections(s)[0] + arg_slot(
            s.subrange(p + 1, digits_end(s, p + 1)),
        ) + spec_sections(s)[1],
{
    lemma_scan_to_placeholder(s, 0, p);
    lemma_digits_end(s, p + 1);
    let e = digits_end(s, p + 1);
    lemma_scan_literal(s, e);
    assert(spec_sections(s) =~~= seq![s.take(p), s.skip(e)]);
}

/// Rewriting placeholder-free text is idempotent: the template of such a
/// string is the string itself, so running the parser on it again returns
/// the same template.
pub proof fn lemma_template_idempotent_without_placeholders(s: Seq<char>)
    requires
        forall|i: int| !placeholder_at(s, i),
    ensures
        spec_template(spec_template(s)) == spec_template(s),
{
    lemma_parse_without_placeholders(s);
}

/// A raw translation string split at its placeholders.
///
/// `sections` holds the literal text runs around the placeholders (always one
/// more run than there are placeholders; runs may be empty).  `format_string`
/// is the raw string with every placeholder `%<N>` rewritten as `{arg_<N>}`.
#[derive(Debug)]
pub struct ArgumentString {
    pub sections: Vec<String>,
    pub format_string: String,
}

impl ArgumentString {
    /// `self` is exactly the parse of the raw string `raw`.
    pub open spec fn is_parse_of(self, raw: Seq<char>) -> bool {
        &&& self.sections@.map_values(|sec: String| sec@) == spec_sections(raw)
        &&& self.format_string@ == spec_template(raw)
    }

    /// Split `string` at every placeholder.  Total: any input is accepted,
    /// and text that merely looks like a placeholder (a `%` with no digit
    /// after it) stays literal.
    pub fn from(string: &str) -> (r: ArgumentString)
        ensures
            r.is_parse_of(string@),
    {
        let ghost s = string@;
        let n = string.unicode_len();
        let mut sections: Vec<String> = Vec::new();
        let mut current = String::new();
        let mut format_string = String::new();
        let mut i: usize = 0;
        proof {
            lemma_sections_from_len(s, 0);
            assert(spec_sections(s) =~~= sections@.map_values(|sec: String| sec@) + seq![
                current@ + sections_from(s, 0).first(),
            ] + sections_from(s, 0).drop_first());
        }
        while i < n
            invariant
                i <= n,
                n == s.len(),
                s == string@,
                spec_sections(s) == sections@.map_values(|sec: String| sec@) + seq![
                    current@ + sections_from(s, i as int).first(),
                ] + sections_from(s, i as int).drop_first(),
                spec_template(s) == format_string@ + template_from(s, i as int),
            decreases n - i,
        {
            let c = string.get_char(i);
            if c == '%' && i + 1 < n && digit_char(string.get_char(i + 1)) {
                assert(placeholder_at(s, i as int));
                let mut j = i + 1;
                while j < n && digit_char(string.get_char(j))
                    invariant
                        i + 1 <= j <= n,
                        n == s.len(),
                        s == string@,
                        forall|k: int| i + 1 <= k < j ==> is_placeholder_digit(s[k]),
                    decreases n - j,
                {
                    j += 1;
                }
                proof {
                    lemma_digits_end_unique(s, i + 1, j as int);
                }
                let ghost e = digits_end(s, i + 1);
                format_string.append("{arg_");
                let digits = string.substring_char(i + 1, j);
                format_string.append(digits);
                format_string.append("}");
                sections.push(current);
                current = String::new();
                proof {
                    reveal_strlit("{arg_");
                    reveal_strlit("}");
                    lemma_sections_from_len(s, e);
                    assert(arg_slot(s.subrange(i + 1, e)) =~= "{arg_"@ + digits@ + "}"@);
                    assert(spec_template(s) =~= format_string@ + template_from(s, e));
                    assert(spec_sections(s) =~~= sections@.map_values(|sec: String| sec@) + seq![
                        current@ + sections_from(s, e).first(),
                    ] + sections_from(s, e).drop_first());
                }
                i = j;
            } else {
                assert(!placeholder_at(s, i as int));
                let piece = string.substring_char(i, i + 1);
                proof {
                    assert(piece@ =~= seq![s[i as int]]);
                }
                current.append(piece);
                format_string.append(piece);
                proof {
                    lemma_sections_from_len(s, i + 1);
                    assert(spec_template(s) =~= format_string@ + template_from(s, i + 1));
                    assert(spec_sections(s) =~~= sections@.map_values(|sec: String| sec@) + seq![
                        current@ + sections_from(s, i + 1).first(),
                    ] + sections_from(s, i + 1).drop_first());
                }
                i += 1;
            }
        }
        sections.push(current);
        proof {
            assert(sections_from(s, n as int) =~~= seq![Seq::<char>::empty()]);
            assert(sections@.map_values(|sec: String| sec@) =~~= spec_sections(s));
        }
        ArgumentString { sections, format_string }
    }
}

/// `c` is a decimal digit.
fn digit_char(c: char) -> (b: bool)
    ensures
        b == is_placeholder_digit(c),
{
    let d = c as u32;
    48 <= d && d <= 57
}

} // verus!
