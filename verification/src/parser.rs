//! Turns PF2e source text into candidates through deterministic,
//! line-based rules.
//!
//! A block optionally opens with a bare type line (`Feat`, `Action`,
//! `Reaction`, `Free Action`, `Condition`) or a `Type: <word>` line, then
//! `Label: value` lines matched case-insensitively: `Name`, `Traits`,
//! `Trigger`, `Requirements`, `Prerequisites`, `Effect`, `See also` /
//! `References`. Normalized fields come only from labeled lines; every
//! other line is counted as untagged and lowers the confidence. Blocks
//! are separated by a line holding only `---`.

use vstd::prelude::*;

use crate::domain::{opt_view, Candidate, RuleType};
use crate::ids::is_random_uuid;
use crate::text::{
    append_str, chars_of, decimal, extend_all, find, find_from, lemma_take_succ, lines_of,
    opt_chars, same_as, string_of, strings_of, strs, usize_text, find_in, keep_trimmed_nonempty, lemma_find_from, lemma_take_full, lemma_views_push, lines, lowercase_of, slice, split_char, split_on_char, to_lower, trim,
    trimmed, trimmed_nonempty, views, is_trimmed_text, lemma_split_once_concat, lemma_trim_after_space,
    lemma_trim_of_trimmed, one_line, is_ws, join, lemma_lines_of_join,
    lemma_trimmed_nonempty_of_trimmed, strip_cr, join_with, is_ascii_char, ascii_lower, lemma_split_char_concat,
    lemma_split_char_single, lemma_join_split_char, lemma_split_char_of_join, occurs_at,
};

verus! {

/// The confidence of a typed block with no untagged line, in hundredths.
pub const BASE_CONFIDENCE: u32 = 90;

/// The confidence of a block with no recognizable structure.
pub const UNCLASSIFIED_CONFIDENCE: u32 = 20;

/// Lost when no rule type was found.
pub const MISSING_TYPE_PENALTY: u32 = 20;

/// Lost when some line matched no known label.
pub const LEFTOVER_PENALTY: u32 = 15;

/// A comma-separated list: its items trimmed, empty ones dropped.
pub open spec fn list_items(value: Seq<char>) -> Seq<Seq<char>> {
    trimmed_nonempty(split_char(value, ','))
}

/// A type word trimmed, lowercased and with each space made a `-`.
pub open spec fn normalized_type(value: Seq<char>) -> Seq<char> {
    lowercase_of(trim(value)).map_values(|c: char| if c == ' ' { '-' } else { c })
}

/// The rule type a bare type line names, if it names a known one.
pub open spec fn bare_type(line: Seq<char>) -> Option<RuleType> {
    let t = RuleType::from_name(normalized_type(line));
    if t == RuleType::Unclassified {
        None
    } else {
        Some(t)
    }
}

/// `Label: value`: the lowercased label (non-empty, at most 32
/// characters, before the first `:`) and the trimmed value after it.
pub open spec fn label_split(line: Seq<char>) -> Option<(Seq<char>, Seq<char>)> {
    match find(line, seq![':']) {
        None => None,
        Some(i) => {
            let label = trim(line.take(i));
            if label.len() == 0 || label.len() > 32 {
                None
            } else {
                Some((lowercase_of(label), trim(line.skip(i + 1))))
            }
        },
    }
}

/// The `[[...]]` references of `s` from index `pos` on: each trimmed,
/// empty ones dropped; scanning stops at an unclosed `[[`.
pub open spec fn bracketed_from(s: Seq<char>, pos: int) -> Seq<Seq<char>>
    decreases s.len() - pos,
{
    if pos < 0 || pos > s.len() {
        seq![]
    } else {
        match find_from(s, seq!['[', '['], pos) {
            None => seq![],
            Some(st) => match find_from(s, seq![']', ']'], st + 2) {
                None => seq![],
                Some(en) => {
                    if pos <= st && st + 2 <= en && en + 2 <= s.len() {
                        let r = trim(s.subrange(st + 2, en));
                        (if r.len() > 0 {
                            seq![r]
                        } else {
                            seq![]
                        }) + bracketed_from(s, en + 2)
                    } else {
                        seq![]
                    }
                },
            },
        }
    }
}

/// What the labeled lines of a block have said so far.
pub struct LabeledFields {
    pub rule_type: Option<RuleType>,
    pub name: Option<Seq<char>>,
    pub traits: Seq<Seq<char>>,
    pub trigger: Option<Seq<char>>,
    pub requirements: Seq<Seq<char>>,
    pub prerequisites: Seq<Seq<char>>,
    pub effect: Option<Seq<char>>,
    pub references: Seq<Seq<char>>,
    pub untagged: nat,
}

pub open spec fn no_fields() -> LabeledFields {
    LabeledFields {
        rule_type: None,
        name: None,
        traits: seq![],
        trigger: None,
        requirements: seq![],
        prerequisites: seq![],
        effect: None,
        references: seq![],
        untagged: 0,
    }
}

/// Reads the line at `index` of a block into `f`. A later label
/// replaces an earlier one of the same kind, but references accumulate.
pub open spec fn scan_line(f: LabeledFields, index: int, line: Seq<char>) -> LabeledFields {
    if index == 0 && bare_type(line) is Some {
        LabeledFields { rule_type: bare_type(line), ..f }
    } else {
        match label_split(line) {
            Some((label, value)) => {
                if label == "type"@ {
                    LabeledFields {
                        rule_type: Some(RuleType::from_name(normalized_type(value))),
                        ..f
                    }
                } else if label == "name"@ {
                    LabeledFields { name: Some(value), ..f }
                } else if label == "traits"@ {
                    LabeledFields { traits: list_items(value), ..f }
                } else if label == "trigger"@ {
                    LabeledFields { trigger: Some(value), ..f }
                } else if label == "requirements"@ {
                    LabeledFields { requirements: list_items(value), ..f }
                } else if label == "prerequisites"@ {
                    LabeledFields { prerequisites: list_items(value), ..f }
                } else if label == "effect"@ {
                    LabeledFields { effect: Some(value), ..f }
                } else if label == "see also"@ || label == "references"@ {
                    LabeledFields { references: f.references + list_items(value), ..f }
                } else {
                    LabeledFields { untagged: f.untagged + 1, ..f }
                }
            },
            None => LabeledFields { untagged: f.untagged + 1, ..f },
        }
    }
}

/// Reads the lines of a block in order.
pub open spec fn scan_lines(lines: Seq<Seq<char>>) -> LabeledFields
    decreases lines.len(),
{
    if lines.len() == 0 {
        no_fields()
    } else {
        scan_line(scan_lines(lines.drop_last()), lines.len() - 1, lines.last())
    }
}

/// The non-blank lines of a block, trimmed.
pub open spec fn content_lines(block: Seq<char>) -> Seq<Seq<char>> {
    trimmed_nonempty(lines(block))
}

/// The note recorded when `n` lines matched no known label.
pub open spec fn untagged_note(n: nat) -> Seq<char> {
    decimal(n) + " untagged line(s) present in source, not mapped to a known field"@
}

/// The candidate a trimmed block yields, given its identifier.
pub open spec fn block_candidate(block: Seq<char>, id: u128) -> crate::domain::CandidateView {
    let f = scan_lines(content_lines(block));
    let references = f.references + bracketed_from(block, 0);
    let rule_type = match f.rule_type {
        Some(t) => t,
        None => RuleType::Unclassified,
    };
    if f.name is None && f.trigger is None && f.effect is None && f.traits.len() == 0
        && f.requirements.len() == 0 && f.prerequisites.len() == 0 && rule_type
        == RuleType::Unclassified {
        crate::domain::CandidateView {
            candidate_id: id,
            rule_type: RuleType::Unclassified,
            name: None,
            traits: seq![],
            trigger: None,
            requirements: seq![],
            effect: None,
            prerequisites: seq![],
            references,
            source_text: block,
            inferences: seq![],
            confidence: UNCLASSIFIED_CONFIDENCE,
        }
    } else {
        crate::domain::CandidateView {
            candidate_id: id,
            rule_type,
            name: f.name,
            traits: f.traits,
            trigger: f.trigger,
            requirements: f.requirements,
            effect: f.effect,
            prerequisites: f.prerequisites,
            references,
            source_text: block,
            inferences: if f.untagged > 0 {
                seq![untagged_note(f.untagged)]
            } else {
                seq![]
            },
            confidence: (BASE_CONFIDENCE - (if f.rule_type is None {
                MISSING_TYPE_PENALTY
            } else {
                0
            }) - (if f.untagged > 0 {
                LEFTOVER_PENALTY
            } else {
                0
            })) as u32,
        }
    }
}

/// A line that holds only `---`, apart from surrounding whitespace.
pub open spec fn is_separator(line: Seq<char>) -> bool {
    trim(line) == seq!['-', '-', '-']
}

/// The block texts finished so far and the lines of the one being read,
/// reading the lines of a source in order: a separator line ends a
/// block, any other line belongs to it.
pub open spec fn block_groups_acc(ls: Seq<Seq<char>>) -> (Seq<Seq<char>>, Seq<Seq<char>>)
    decreases ls.len(),
{
    if ls.len() == 0 {
        (seq![], seq![])
    } else {
        let prev = block_groups_acc(ls.drop_last());
        if is_separator(ls.last()) {
            (prev.0.push(join(prev.1, seq!['\n'])), seq![])
        } else {
            (prev.0, prev.1.push(ls.last()))
        }
    }
}

/// The texts between separator lines, each exactly as it stands in the
/// source.
pub open spec fn block_texts(source: Seq<char>) -> Seq<Seq<char>> {
    let a = block_groups_acc(split_char(source, '\n'));
    a.0.push(join(a.1, seq!['\n']))
}

/// The blocks of a source text: the texts between lines holding only
/// `---`, trimmed, blank ones dropped.
pub open spec fn blocks(source: Seq<char>) -> Seq<Seq<char>> {
    trimmed_nonempty(block_texts(source))
}

fn is_separator_line(line: &Vec<char>) -> (r: bool)
    ensures
        r == is_separator(line@),
{
    let t = trimmed(line);
    let r = t.len() == 3 && t[0] == '-' && t[1] == '-' && t[2] == '-';
    proof {
        if r {
            assert(t@ =~= seq!['-', '-', '-']);
        }
    }
    r
}

/// The texts between separator lines of `source`.
fn split_blocks(source: &Vec<char>) -> (r: Vec<Vec<char>>)
    ensures
        views(r@) == block_texts(source@),
{
    let ls = split_on_char(source, '\n');
    let nl = vec!['\n'];
    assert(nl@ =~= seq!['\n']);
    let mut done: Vec<Vec<char>> = Vec::new();
    let mut cur: Vec<Vec<char>> = Vec::new();
    let mut i: usize = 0;
    while i < ls.len()
        invariant
            i <= ls.len(),
            nl@ == seq!['\n'],
            views(ls@) == split_char(source@, '\n'),
            (views(done@), views(cur@)) == block_groups_acc(views(ls@).take(i as int)),
        decreases ls.len() - i,
    {
        proof {
            lemma_take_succ(views(ls@), i as int);
        }
        assert(views(ls@)[i as int] == ls@[i as int]@);
        if is_separator_line(&ls[i]) {
            let b = join_with(&cur, &nl);
            proof {
                lemma_views_push(done@, b);
            }
            done.push(b);
            cur = Vec::new();
            assert(views(cur@) =~= Seq::<Seq<char>>::empty());
        } else {
            let l = ls[i].clone();
            assert(l@ == ls@[i as int]@);
            proof {
                lemma_views_push(cur@, l);
            }
            cur.push(l);
        }
        i = i + 1;
    }
    proof {
        lemma_take_full(views(ls@));
    }
    let b = join_with(&cur, &nl);
    proof {
        lemma_views_push(done@, b);
    }
    done.push(b);
    done
}

/// The name, trigger and effect the lines of a block give each come from
/// a line explicitly labeled `Name:`, `Trigger:` or `Effect:`: the
/// parser never infers them from surrounding prose.
pub proof fn law_fields_come_from_labeled_lines(lines: Seq<Seq<char>>)
    ensures
        scan_lines(lines).name matches Some(n) ==> exists|i: int|
            0 <= i < lines.len() && #[trigger] label_split(lines[i]) == Some(("name"@, n)),
        scan_lines(lines).trigger matches Some(t) ==> exists|i: int|
            0 <= i < lines.len() && #[trigger] label_split(lines[i]) == Some(("trigger"@, t)),
        scan_lines(lines).effect matches Some(e) ==> exists|i: int|
            0 <= i < lines.len() && #[trigger] label_split(lines[i]) == Some(("effect"@, e)),
    decreases lines.len(),
{
    reveal_strlit("type");
    reveal_strlit("name");
    reveal_strlit("trigger");
    reveal_strlit("effect");
    if lines.len() > 0 {
        let prev = lines.drop_last();
        law_fields_come_from_labeled_lines(prev);
        let last = lines.len() - 1;
        assert forall|i: int| 0 <= i < prev.len() implies prev[i] == lines[i] by {}
        if scan_lines(lines).name != scan_lines(prev).name {
            assert(label_split(lines[last]) == Some(("name"@, scan_lines(lines).name->Some_0)));
        }
        if scan_lines(lines).trigger != scan_lines(prev).trigger {
            assert(label_split(lines[last]) == Some(
                ("trigger"@, scan_lines(lines).trigger->Some_0),
            ));
        }
        if scan_lines(lines).effect != scan_lines(prev).effect {
            assert(label_split(lines[last]) == Some(("effect"@, scan_lines(lines).effect->Some_0)));
        }
    }
}

/// A candidate's confidence never exceeds the base confidence, and it is
/// the base only for a typed block whose every line matched a known
/// label; a block with an untagged line says so in its inferences.
pub proof fn law_confidence_is_never_inflated(block: Seq<char>, id: u128)
    ensures
        block_candidate(block, id).confidence <= BASE_CONFIDENCE,
        block_candidate(block, id).confidence == BASE_CONFIDENCE ==> scan_lines(
            content_lines(block),
        ).rule_type is Some && scan_lines(content_lines(block)).untagged == 0,
        block_candidate(block, id).inferences.len() > 0 ==> block_candidate(block, id).confidence
            < BASE_CONFIDENCE,
{
}

/// A block in which no line gives a rule type or a normalized field
/// becomes a single `Unclassified` candidate at the unclassified
/// confidence, wrapping the whole block as its source text.
pub proof fn law_unstructured_block_is_unclassified(block: Seq<char>, id: u128)
    requires
        ({
            let f = scan_lines(content_lines(block));
            &&& (f.rule_type is None || f.rule_type == Some(RuleType::Unclassified))
            &&& f.name is None && f.trigger is None && f.effect is None
            &&& f.traits.len() == 0 && f.requirements.len() == 0 && f.prerequisites.len() == 0
        }),
    ensures
        block_candidate(block, id).rule_type == RuleType::Unclassified,
        block_candidate(block, id).confidence == UNCLASSIFIED_CONFIDENCE,
        block_candidate(block, id).source_text == block,
        block_candidate(block, id).inferences.len() == 0,
{
}

proof fn lemma_find_from_shift(a: Seq<char>, t: Seq<char>, p: Seq<char>, i: int)
    requires
        0 <= i,
    ensures
        find_from(a + t, p, i + a.len()) == match find_from(t, p, i) {
            Some(k) => Some(k + a.len()),
            None => None::<int>,
        },
    decreases t.len() + 1 - i,
{
    let s = a + t;
    if i + p.len() <= t.len() {
        assert(s.subrange(i + a.len(), i + a.len() + p.len()) =~= t.subrange(i, i + p.len()));
        assert(occurs_at(s, p, i + a.len()) == occurs_at(t, p, i));
        if !occurs_at(t, p, i) {
            lemma_find_from_shift(a, t, p, i + 1);
            assert(i + a.len() + 1 == (i + 1) + a.len());
        }
    }
}

proof fn lemma_bracketed_shift(a: Seq<char>, t: Seq<char>, pos: int)
    requires
        0 <= pos,
    ensures
        bracketed_from(a + t, pos + a.len()) == bracketed_from(t, pos),
    decreases t.len() - pos,
{
    let s = a + t;
    let al = a.len() as int;
    if pos <= t.len() {
        lemma_find_from_shift(a, t, seq!['[', '['], pos);
        match find_from(t, seq!['[', '['], pos) {
            None => {},
            Some(st) => {
                lemma_find_from(t, seq!['[', '['], pos);
                lemma_find_from_shift(a, t, seq![']', ']'], st + 2);
                assert(st + al + 2 == (st + 2) + al);
                match find_from(t, seq![']', ']'], st + 2) {
                    None => {},
                    Some(en) => {
                        lemma_find_from(t, seq![']', ']'], st + 2);
                        if pos <= st && st + 2 <= en && en + 2 <= t.len() {
                            assert(s.subrange(st + al + 2, en + al) =~= t.subrange(st + 2, en));
                            lemma_bracketed_shift(a, t, en + 2);
                            assert(en + al + 2 == (en + 2) + al);
                        }
                    },
                }
            },
        }
    }
}

proof fn lemma_find_skips_plain(s: Seq<char>, p: int, q: int)
    requires
        0 <= p <= q <= s.len(),
        forall|j: int| p <= j < q ==> s[j] != '[',
    ensures
        find_from(s, seq!['[', '['], p) == find_from(s, seq!['[', '['], q),
    decreases q - p,
{
    if p < q {
        if occurs_at(s, seq!['[', '['], p) {
            assert(s.subrange(p, p + 2)[0] == s[p]);
        }
        lemma_find_skips_plain(s, p + 1, q);
    }
}

proof fn lemma_bracketed_skips_plain(s: Seq<char>, p: int, q: int)
    requires
        0 <= p <= q <= s.len(),
        forall|j: int| p <= j < q ==> s[j] != '[',
    ensures
        bracketed_from(s, p) == bracketed_from(s, q),
{
    lemma_find_skips_plain(s, p, q);
    lemma_find_from(s, seq!['[', '['], q);
}

/// A closed `[[x]]` span, some text without `[` after it, then the rest
/// of the text: the span's trimmed content, if not empty, is a reference,
/// followed by every reference of the rest.
pub proof fn law_bracketed_span_then_rest(x: Seq<char>, gap: Seq<char>, rest: Seq<char>)
    requires
        !x.contains(']'),
        !gap.contains('['),
    ensures
        trim(x).len() > 0 ==> bracketed_from(seq!['[', '['] + x + seq![']', ']'] + gap + rest, 0)
            == seq![trim(x)] + bracketed_from(rest, 0),
        trim(x).len() == 0 ==> bracketed_from(seq!['[', '['] + x + seq![']', ']'] + gap + rest, 0)
            == bracketed_from(rest, 0),
{
    let head = seq!['[', '['] + x + seq![']', ']'] + gap;
    let s = head + rest;
    let xl = x.len() as int;
    let en = 2 + xl;
    assert(s.subrange(0, 2) =~= seq!['[', '[']);
    assert(occurs_at(s, seq!['[', '['], 0));
    assert(find_from(s, seq!['[', '['], 0) == Some(0int));
    assert(s.subrange(en, en + 2) =~= seq![']', ']']);
    assert forall|j: int| 2 <= j < en implies !occurs_at(s, seq![']', ']'], j) by {
        assert(s[j] == x[j - 2]);
        if occurs_at(s, seq![']', ']'], j) {
            assert(s.subrange(j, j + 2)[0] == s[j]);
            assert(x.contains(x[j - 2]));
        }
    }
    crate::text::lemma_find_first(s, seq![']', ']'], en, 2);
    assert(s.subrange(2, en) =~= x);
    assert forall|j: int| en + 2 <= j < head.len() implies s[j] != '[' by {
        assert(s[j] == gap[j - en - 2]);
        if s[j] == '[' {
            assert(gap.contains(gap[j - en - 2]));
        }
    }
    lemma_bracketed_skips_plain(s, en + 2, head.len() as int);
    lemma_bracketed_shift(head, rest, 0);
    assert(0 + head.len() == head.len());
    if trim(x).len() == 0 {
        assert(Seq::<Seq<char>>::empty() + bracketed_from(rest, 0) =~= bracketed_from(rest, 0));
    }
}

/// Text holding no `[[` has no bracketed references.
pub proof fn law_no_brackets_no_references(s: Seq<char>)
    requires
        !s.contains('['),
    ensures
        bracketed_from(s, 0) == Seq::<Seq<char>>::empty(),
{
    assert forall|j: int| 0 <= j < s.len() implies s[j] != '[' by {
        if s[j] == '[' {
            assert(s.contains(s[j]));
        }
    }
    lemma_bracketed_skips_plain(s, 0, s.len() as int);
    assert(find_from(s, seq!['[', '['], s.len() as int) is None);
}

/// The text `[[x0]] [[x1]] ...` of closed spans, each followed by a space.
pub open spec fn bracket_spans(xs: Seq<Seq<char>>) -> Seq<char>
    decreases xs.len(),
{
    if xs.len() == 0 {
        seq![]
    } else {
        seq!['[', '['] + xs[0] + seq![']', ']', ' '] + bracket_spans(xs.drop_first())
    }
}

/// Every closed `[[...]]` span is a reference, in order: text made of
/// spans with non-blank contents (no brackets inside), then text without
/// `[`, has exactly the spans' trimmed contents as its bracketed
/// references.
pub proof fn law_every_closed_span_is_a_reference(xs: Seq<Seq<char>>, tail: Seq<char>)
    requires
        forall|i: int|
            0 <= i < xs.len() ==> !(#[trigger] xs[i]).contains(']') && trim(xs[i]).len() > 0,
        !tail.contains('['),
    ensures
        bracketed_from(bracket_spans(xs) + tail, 0) == xs.map_values(|x: Seq<char>| trim(x)),
    decreases xs.len(),
{
    if xs.len() == 0 {
        assert(bracket_spans(xs) + tail =~= tail);
        law_no_brackets_no_references(tail);
        assert(xs.map_values(|x: Seq<char>| trim(x)) =~= Seq::<Seq<char>>::empty());
    } else {
        let x = xs[0];
        let more = xs.drop_first();
        assert forall|i: int|
            0 <= i < more.len() implies !(#[trigger] more[i]).contains(']') && trim(more[i]).len()
            > 0 by {
            assert(more[i] == xs[i + 1]);
        }
        law_every_closed_span_is_a_reference(more, tail);
        let gap = seq![' '];
        assert(!gap.contains('['));
        law_bracketed_span_then_rest(x, gap, bracket_spans(more) + tail);
        assert(bracket_spans(xs) + tail =~= seq!['[', '['] + x + seq![']', ']'] + gap + (
        bracket_spans(more) + tail));
        assert(xs.map_values(|x: Seq<char>| trim(x)) =~= seq![trim(x)] + more.map_values(
            |x: Seq<char>| trim(x),
        ));
    }
}

/// Every candidate keeps its block's text exactly, apart from the
/// block's surrounding whitespace.
pub proof fn law_source_text_is_kept(block: Seq<char>, id: u128)
    ensures
        block_candidate(block, id).source_text == block,
        block_candidate(block, id).candidate_id == id,
{
}

/// A line written `<label>: <value>` reads as the lowercased label and
/// the value, for a label of at most 32 characters without a `:`.
pub proof fn lemma_labeled_line(label: Seq<char>, value: Seq<char>)
    requires
        is_trimmed_text(label),
        label.len() <= 32,
        !label.contains(':'),
        is_trimmed_text(value),
    ensures
        label_split(label + seq![':', ' '] + value) == Some((lowercase_of(label), value)),
{
    let line = label + seq![':', ' '] + value;
    assert(line =~= label + seq![':'] + (seq![' '] + value));
    lemma_split_once_concat(label, ':', seq![' '] + value);
    lemma_trim_of_trimmed(label);
    lemma_trim_after_space(value);
}

/// Reading one more line reads it into what the earlier lines gave.
pub proof fn lemma_scan_push(lines: Seq<Seq<char>>, line: Seq<char>)
    ensures
        scan_lines(lines.push(line)) == scan_line(scan_lines(lines), lines.len() as int, line),
{
    assert(lines.push(line).drop_last() =~= lines);
}

/// Single trimmed lines joined with `\n` are a block's content lines.
pub proof fn lemma_content_lines_of_join(ls: Seq<Seq<char>>)
    requires
        ls.len() > 0,
        forall|i: int| 0 <= i < ls.len() ==> one_line(#[trigger] ls[i]),
    ensures
        content_lines(join(ls, "\n"@)) == ls,
{
    reveal_strlit("\n");
    assert forall|i: int| 0 <= i < ls.len() implies !(#[trigger] ls[i]).contains('\n')
        && is_trimmed_text(ls[i]) by {
        assert(one_line(ls[i]));
    }
    assert forall|i: int| 0 <= i < ls.len() - 1 implies strip_cr(#[trigger] ls[i]) == ls[i] by {
        assert(one_line(ls[i]));
        assert(is_ws('\r'));
    }
    assert("\n"@ =~= seq!['\n']);
    assert(ls.last().len() > 0) by {
        assert(one_line(ls[ls.len() - 1]));
    }
    lemma_lines_of_join(ls, "\n"@);
    lemma_trimmed_nonempty_of_trimmed(ls);
}

/// The ASCII words of the labels a rendered block uses lowercase to
/// their ASCII lowercase.
pub proof fn lemma_label_words_lowercase()
    ensures
        lowercase_of("Condition"@) == "condition"@,
        lowercase_of("Feat"@) == "feat"@,
        lowercase_of("Action"@) == "action"@,
        lowercase_of("Free Action"@) == "free action"@,
        lowercase_of("Reaction"@) == "reaction"@,
        lowercase_of("Name"@) == "name"@,
        lowercase_of("Traits"@) == "traits"@,
        lowercase_of("Trigger"@) == "trigger"@,
        lowercase_of("Requirements"@) == "requirements"@,
        lowercase_of("Effect"@) == "effect"@,
{
    reveal_strlit("Condition");
    reveal_strlit("condition");
    assert forall|i: int| 0 <= i < 9 implies is_ascii_char(#[trigger] "Condition"@[i]) && #[trigger] ascii_lower("Condition"@[i]) == "condition"@[i] by {}
    lemma_ascii_word_lowercase("Condition"@, "condition"@);
    reveal_strlit("Feat");
    reveal_strlit("feat");
    assert forall|i: int| 0 <= i < 4 implies is_ascii_char(#[trigger] "Feat"@[i]) && #[trigger] ascii_lower("Feat"@[i]) == "feat"@[i] by {}
    lemma_ascii_word_lowercase("Feat"@, "feat"@);
    reveal_strlit("Action");
    reveal_strlit("action");
    assert forall|i: int| 0 <= i < 6 implies is_ascii_char(#[trigger] "Action"@[i]) && #[trigger] ascii_lower("Action"@[i]) == "action"@[i] by {}
    lemma_ascii_word_lowercase("Action"@, "action"@);
    reveal_strlit("Free Action");
    reveal_strlit("free action");
    assert forall|i: int| 0 <= i < 11 implies is_ascii_char(#[trigger] "Free Action"@[i]) && #[trigger] ascii_lower("Free Action"@[i]) == "free action"@[i] by {}
    lemma_ascii_word_lowercase("Free Action"@, "free action"@);
    reveal_strlit("Reaction");
    reveal_strlit("reaction");
    assert forall|i: int| 0 <= i < 8 implies is_ascii_char(#[trigger] "Reaction"@[i]) && #[trigger] ascii_lower("Reaction"@[i]) == "reaction"@[i] by {}
    lemma_ascii_word_lowercase("Reaction"@, "reaction"@);
    reveal_strlit("Name");
    reveal_strlit("name");
    assert forall|i: int| 0 <= i < 4 implies is_ascii_char(#[trigger] "Name"@[i]) && #[trigger] ascii_lower("Name"@[i]) == "name"@[i] by {}
    lemma_ascii_word_lowercase("Name"@, "name"@);
    reveal_strlit("Traits");
    reveal_strlit("traits");
    assert forall|i: int| 0 <= i < 6 implies is_ascii_char(#[trigger] "Traits"@[i]) && #[trigger] ascii_lower("Traits"@[i]) == "traits"@[i] by {}
    lemma_ascii_word_lowercase("Traits"@, "traits"@);
    reveal_strlit("Trigger");
    reveal_strlit("trigger");
    assert forall|i: int| 0 <= i < 7 implies is_ascii_char(#[trigger] "Trigger"@[i]) && #[trigger] ascii_lower("Trigger"@[i]) == "trigger"@[i] by {}
    lemma_ascii_word_lowercase("Trigger"@, "trigger"@);
    reveal_strlit("Requirements");
    reveal_strlit("requirements");
    assert forall|i: int| 0 <= i < 12 implies is_ascii_char(#[trigger] "Requirements"@[i]) && #[trigger] ascii_lower("Requirements"@[i]) == "requirements"@[i] by {}
    lemma_ascii_word_lowercase("Requirements"@, "requirements"@);
    reveal_strlit("Effect");
    reveal_strlit("effect");
    assert forall|i: int| 0 <= i < 6 implies is_ascii_char(#[trigger] "Effect"@[i]) && #[trigger] ascii_lower("Effect"@[i]) == "effect"@[i] by {}
    lemma_ascii_word_lowercase("Effect"@, "effect"@);
}

proof fn lemma_ascii_word_lowercase(w: Seq<char>, l: Seq<char>)
    requires
        w.len() == l.len(),
        forall|i: int| 0 <= i < w.len() ==> is_ascii_char(#[trigger] w[i]),
        forall|i: int| 0 <= i < w.len() ==> #[trigger] ascii_lower(w[i]) == l[i],
    ensures
        lowercase_of(w) == l,
{
    assert(w.map_values(|c: char| ascii_lower(c)) =~= l);
}

/// The keys of the labels the parser knows are all different.
pub proof fn lemma_label_keys_distinct()
    ensures
        "name"@ != "type"@,
        "traits"@ != "type"@ && "traits"@ != "name"@,
        "trigger"@ != "type"@ && "trigger"@ != "name"@ && "trigger"@ != "traits"@,
        "requirements"@ != "type"@ && "requirements"@ != "name"@ && "requirements"@ != "traits"@
            && "requirements"@ != "trigger"@,
        "effect"@ != "type"@ && "effect"@ != "name"@ && "effect"@ != "traits"@ && "effect"@
            != "trigger"@ && "effect"@ != "requirements"@ && "effect"@ != "prerequisites"@,
{
    reveal_strlit("type");
    reveal_strlit("name");
    reveal_strlit("traits");
    reveal_strlit("trigger");
    reveal_strlit("requirements");
    reveal_strlit("prerequisites");
    reveal_strlit("effect");
    assert("name"@[0] != "type"@[0]);
    assert("traits"@[0] != "effect"@[0]);
    assert("traits"@[2] != "trigger"@[2]);
}

/// No line of `b` is a separator line.
pub open spec fn has_no_separator_line(b: Seq<char>) -> bool {
    forall|j: int|
        0 <= j < split_char(b, '\n').len() ==> !is_separator(#[trigger] split_char(b, '\n')[j])
}

proof fn lemma_groups_append(l1: Seq<Seq<char>>, l2: Seq<Seq<char>>)
    requires
        forall|j: int| 0 <= j < l2.len() ==> !is_separator(#[trigger] l2[j]),
    ensures
        block_groups_acc(l1 + l2) == (block_groups_acc(l1).0, block_groups_acc(l1).1 + l2),
    decreases l2.len(),
{
    if l2.len() == 0 {
        assert(l1 + l2 =~= l1);
        assert(block_groups_acc(l1).1 + l2 =~= block_groups_acc(l1).1);
    } else {
        let l2d = l2.drop_last();
        assert forall|j: int| 0 <= j < l2d.len() implies !is_separator(#[trigger] l2d[j]) by {
            assert(l2d[j] == l2[j]);
        }
        lemma_groups_append(l1, l2d);
        let u = l1 + l2;
        assert(u.drop_last() =~= l1 + l2d);
        assert(u.last() == l2[l2.len() - 1]);
        assert((block_groups_acc(l1).1 + l2d).push(l2.last()) =~= block_groups_acc(l1).1 + l2);
    }
}

proof fn lemma_groups_of_join(bs: Seq<Seq<char>>, sep: Seq<char>)
    requires
        sep == seq!['\n', '-', '-', '-', '\n'],
        bs.len() > 0,
        forall|i: int| 0 <= i < bs.len() ==> has_no_separator_line(#[trigger] bs[i]),
    ensures
        block_groups_acc(split_char(join(bs, sep), '\n')) == (bs.drop_last(), split_char(
            bs.last(),
            '\n',
        )),
    decreases bs.len(),
{
    let dashes = seq!['-', '-', '-'];
    let last = bs.last();
    assert(has_no_separator_line(last)) by {
        assert(last == bs[bs.len() - 1]);
    }
    let ll = split_char(last, '\n');
    assert forall|j: int| 0 <= j < ll.len() implies !is_separator(#[trigger] ll[j]) by {}
    if bs.len() == 1 {
        lemma_groups_append(Seq::<Seq<char>>::empty(), ll);
        assert(Seq::<Seq<char>>::empty() + ll =~= ll);
        assert(block_groups_acc(Seq::<Seq<char>>::empty()) == (
            Seq::<Seq<char>>::empty(),
            Seq::<Seq<char>>::empty(),
        ));
        assert(Seq::<Seq<char>>::empty() + ll =~= ll);
        assert(bs.drop_last() =~= Seq::<Seq<char>>::empty());
        assert(join(bs, sep) == bs[0]);
    } else {
        let prev = bs.drop_last();
        assert forall|i: int| 0 <= i < prev.len() implies has_no_separator_line(#[trigger] prev[i]) by {
            assert(prev[i] == bs[i]);
        }
        lemma_groups_of_join(prev, sep);
        let jp = join(prev, sep);
        assert(join(bs, sep) =~= jp + seq!['\n'] + (dashes + seq!['\n'] + last));
        lemma_split_char_concat(jp, '\n', dashes + seq!['\n'] + last);
        lemma_split_char_concat(dashes, '\n', last);
        assert(!dashes.contains('\n')) by {
            assert forall|k: int| 0 <= k < 3 implies dashes[k] != '\n' by {}
        }
        lemma_split_char_single(dashes, '\n');
        let pl = split_char(jp, '\n');
        assert(split_char(join(bs, sep), '\n') =~= pl.push(dashes) + ll);
        lemma_trim_of_trimmed(dashes);
        assert(is_separator(dashes));
        assert(pl.push(dashes).drop_last() =~= pl);
        lemma_join_split_char(prev.last(), '\n');
        assert(prev.drop_last().push(prev.last()) =~= prev);
        assert(block_groups_acc(pl.push(dashes)) == (prev, Seq::<Seq<char>>::empty()));
        lemma_groups_append(pl.push(dashes), ll);
        assert(Seq::<Seq<char>>::empty() + ll =~= ll);
    }
}

/// Trimmed blocks, none of whose lines is a separator line, joined with
/// `\n---\n`, are read back as exactly those blocks.
pub proof fn lemma_blocks_of_join(bs: Seq<Seq<char>>)
    requires
        forall|i: int| 0 <= i < bs.len() ==> is_trimmed_text(#[trigger] bs[i]),
        forall|i: int| 0 <= i < bs.len() ==> has_no_separator_line(#[trigger] bs[i]),
    ensures
        blocks(join(bs, "\n---\n"@)) == bs,
{
    reveal_strlit("\n---\n");
    let sep = "\n---\n"@;
    assert(sep =~= seq!['\n', '-', '-', '-', '\n']);
    if bs.len() == 0 {
        let e = Seq::<char>::empty();
        assert(join(bs, sep) == e);
        lemma_split_char_single(e, '\n');
        assert(!is_separator(e)) by {
            assert(trim(e) =~= e);
        }
        assert(seq![e].drop_last() =~= Seq::<Seq<char>>::empty());
        assert(block_groups_acc(Seq::<Seq<char>>::empty()) == (
            Seq::<Seq<char>>::empty(),
            Seq::<Seq<char>>::empty(),
        ));
        assert(block_groups_acc(seq![e]) == (Seq::<Seq<char>>::empty(), seq![e]));
        assert(join(seq![e], seq!['\n']) == e);
        assert(block_texts(join(bs, sep)) =~= seq![e]);
        assert(trimmed_nonempty(Seq::<Seq<char>>::empty()) == Seq::<Seq<char>>::empty());
        assert(trim(e) =~= e);
        assert(trimmed_nonempty(seq![e]) =~= Seq::<Seq<char>>::empty());
    } else {
        lemma_groups_of_join(bs, sep);
        lemma_join_split_char(bs.last(), '\n');
        assert(bs.drop_last().push(bs.last()) =~= bs);
        assert(block_texts(join(bs, sep)) == bs);
        lemma_trimmed_nonempty_of_trimmed(bs);
    }
}

/// A block made of one-line lines, none starting with `-`, has no
/// separator line.
pub proof fn lemma_block_lines_no_separator(ls: Seq<Seq<char>>)
    requires
        ls.len() > 0,
        forall|i: int| 0 <= i < ls.len() ==> one_line(#[trigger] ls[i]) && ls[i][0] != '-',
    ensures
        has_no_separator_line(join(ls, "\n"@)),
{
    reveal_strlit("\n");
    assert("\n"@ =~= seq!['\n']);
    assert forall|i: int| 0 <= i < ls.len() implies !(#[trigger] ls[i]).contains('\n') by {
        assert(one_line(ls[i]));
    }
    lemma_split_char_of_join(ls, '\n');
    assert forall|j: int| 0 <= j < ls.len() implies !is_separator(#[trigger] ls[j]) by {
        assert(one_line(ls[j]));
        lemma_trim_of_trimmed(ls[j]);
        if trim(ls[j]) == seq!['-', '-', '-'] {
            assert(ls[j][0] == '-');
        }
    }
}

fn split_list(value: &Vec<char>) -> (r: Vec<Vec<char>>)
    ensures
        views(r@) == list_items(value@),
{
    let pieces = split_on_char(value, ',');
    keep_trimmed_nonempty(&pieces)
}

fn normalize_type(value: &Vec<char>) -> (r: Vec<char>)
    ensures
        r@ == normalized_type(value@),
{
    let t = trimmed(value);
    let l = to_lower(&t);
    let mut r: Vec<char> = Vec::new();
    let mut i: usize = 0;
    while i < l.len()
        invariant
            i <= l.len(),
            r@ == l@.take(i as int).map_values(|c: char| if c == ' ' { '-' } else { c }),
        decreases l.len() - i,
    {
        let c = l[i];
        r.push(if c == ' ' { '-' } else { c });
        proof {
            assert(r@ =~= l@.take(i + 1).map_values(|c: char| if c == ' ' { '-' } else { c }));
        }
        i = i + 1;
    }
    proof {
        lemma_take_full(l@);
    }
    r
}

fn detect_bare_type(line: &Vec<char>) -> (r: Option<RuleType>)
    ensures
        r == bare_type(line@),
{
    let normalized = normalize_type(line);
    let t = RuleType::parse_chars(&normalized);
    if t == RuleType::Unclassified {
        None
    } else {
        Some(t)
    }
}

fn split_label(line: &Vec<char>) -> (r: Option<(Vec<char>, Vec<char>)>)
    ensures
        r matches Some((l, v)) ==> label_split(line@) == Some((l@, v@)),
        r is None ==> label_split(line@) is None,
{
    let colon = vec![':'];
    assert(colon@ =~= seq![':']);
    match find_in(line, &colon, 0) {
        None => None,
        Some(i) => {
            proof {
                lemma_find_from(line@, colon@, 0);
            }
            let head = slice(line, 0, i);
            let label = trimmed(&head);
            if label.len() == 0 || label.len() > 32 {
                None
            } else {
                let tail = slice(line, i + 1, line.len());
                let value = trimmed(&tail);
                let lowered = to_lower(&label);
                assert(head@ =~= line@.take(i as int));
                assert(tail@ =~= line@.skip(i + 1));
                Some((lowered, value))
            }
        },
    }
}

fn extract_bracketed_references(s: &Vec<char>) -> (r: Vec<Vec<char>>)
    ensures
        views(r@) == bracketed_from(s@, 0),
{
    let open = vec!['[', '['];
    let close = vec![']', ']'];
    let mut out: Vec<Vec<char>> = Vec::new();
    let mut pos: usize = 0;
    loop
        invariant
            pos <= s.len(),
            open@ == seq!['[', '['],
            close@ == seq![']', ']'],
            views(out@) + bracketed_from(s@, pos as int) == bracketed_from(s@, 0),
        decreases s.len() - pos,
    {
        match find_in(s, &open, pos) {
            None => {
                assert(views(out@) =~= views(out@) + bracketed_from(s@, pos as int));
                return out;
            },
            Some(st) => {
                proof {
                    lemma_find_from(s@, open@, pos as int);
                }
                match find_in(s, &close, st + 2) {
                    None => {
                        assert(views(out@) =~= views(out@) + bracketed_from(s@, pos as int));
                        return out;
                    },
                    Some(en) => {
                        proof {
                            lemma_find_from(s@, close@, st + 2);
                        }
                        let inner = slice(s, st + 2, en);
                        let r = trimmed(&inner);
                        if r.len() > 0 {
                            proof {
                                lemma_views_push(out@, r);
                                assert(views(out@.push(r)) + bracketed_from(s@, en + 2) =~= views(
                                    out@,
                                ) + bracketed_from(s@, pos as int));
                            }
                            out.push(r);
                        } else {
                            proof {
                                assert(views(out@) + bracketed_from(s@, en + 2) =~= views(out@)
                                    + bracketed_from(s@, pos as int));
                            }
                        }
                        pos = en + 2;
                    },
                }
            },
        }
    }
}


/// The executable counterpart of `LabeledFields`.
struct Fields {
    rule_type: Option<RuleType>,
    name: Option<Vec<char>>,
    traits: Vec<Vec<char>>,
    trigger: Option<Vec<char>>,
    requirements: Vec<Vec<char>>,
    prerequisites: Vec<Vec<char>>,
    effect: Option<Vec<char>>,
    references: Vec<Vec<char>>,
    untagged: usize,
}

impl View for Fields {
    type V = LabeledFields;

    closed spec fn view(&self) -> LabeledFields {
        LabeledFields {
            rule_type: self.rule_type,
            name: opt_chars(self.name),
            traits: views(self.traits@),
            trigger: opt_chars(self.trigger),
            requirements: views(self.requirements@),
            prerequisites: views(self.prerequisites@),
            effect: opt_chars(self.effect),
            references: views(self.references@),
            untagged: self.untagged as nat,
        }
    }
}

fn scan(lines: &Vec<Vec<char>>) -> (f: Fields)
    ensures
        f@ == scan_lines(views(lines@)),
        f.untagged <= lines.len(),
{
    let mut f = Fields {
        rule_type: None,
        name: None,
        traits: Vec::new(),
        trigger: None,
        requirements: Vec::new(),
        prerequisites: Vec::new(),
        effect: None,
        references: Vec::new(),
        untagged: 0,
    };
    assert(views(f.traits@) =~= seq![]);
    let mut i: usize = 0;
    while i < lines.len()
        invariant
            i <= lines.len(),
            f.untagged <= i,
            f@ == scan_lines(views(lines@).take(i as int)),
        decreases lines.len() - i,
    {
        proof {
            lemma_take_succ(views(lines@), i as int);
        }
        let line = &lines[i];
        let ghost before = f@;
        let bare = if i == 0 {
            detect_bare_type(line)
        } else {
            None
        };
        if bare.is_some() {
            f.rule_type = bare;
        } else {
            match split_label(line) {
                Some((label, value)) => {
                    if same_as(&label, "type") {
                        let n = normalize_type(&value);
                        f.rule_type = Some(RuleType::parse_chars(&n));
                    } else if same_as(&label, "name") {
                        f.name = Some(value);
                    } else if same_as(&label, "traits") {
                        f.traits = split_list(&value);
                    } else if same_as(&label, "trigger") {
                        f.trigger = Some(value);
                    } else if same_as(&label, "requirements") {
                        f.requirements = split_list(&value);
                    } else if same_as(&label, "prerequisites") {
                        f.prerequisites = split_list(&value);
                    } else if same_as(&label, "effect") {
                        f.effect = Some(value);
                    } else if same_as(&label, "see also") || same_as(&label, "references") {
                        let items = split_list(&value);
                        extend_all(&mut f.references, items);
                    } else {
                        f.untagged = f.untagged + 1;
                    }
                },
                None => {
                    f.untagged = f.untagged + 1;
                },
            }
        }
        assert(f@ == scan_line(before, i as int, views(lines@)[i as int]));
        i = i + 1;
    }
    proof {
        lemma_take_full(views(lines@));
    }
    f
}

fn opt_string(o: Option<Vec<char>>) -> (r: Option<String>)
    ensures
        opt_view(r) == opt_chars(o),
{
    match o {
        Some(v) => Some(string_of(&v)),
        None => None,
    }
}

/// Parses one trimmed block into the candidate it yields, under the given
/// identifier.
pub fn parse_block(block: &str, candidate_id: u128) -> (c: Candidate)
    ensures
        c@ == block_candidate(block@, candidate_id),
{
    let b = chars_of(block);
    parse_block_chars(&b, candidate_id)
}

fn parse_block_chars(block: &Vec<char>, candidate_id: u128) -> (c: Candidate)
    ensures
        c@ == block_candidate(block@, candidate_id),
{
    let all_lines = lines_of(block);
    let content = keep_trimmed_nonempty(&all_lines);
    let f = scan(&content);
    let ghost fv = f@;
    let Fields {
        rule_type,
        name,
        traits,
        trigger,
        requirements,
        prerequisites,
        effect,
        references,
        untagged,
    } = f;
    let mut references = references;
    let found = extract_bracketed_references(block);
    extend_all(&mut references, found);
    let references = strings_of(&references);
    let source_text = string_of(block);
    let rt = match rule_type {
        Some(t) => t,
        None => RuleType::Unclassified,
    };
    if name.is_none() && trigger.is_none() && effect.is_none() && traits.len() == 0
        && requirements.len() == 0 && prerequisites.len() == 0 && rt == RuleType::Unclassified {
        let c = Candidate {
            candidate_id,
            rule_type: RuleType::Unclassified,
            name: None,
            traits: Vec::new(),
            trigger: None,
            requirements: Vec::new(),
            effect: None,
            prerequisites: Vec::new(),
            references,
            source_text,
            inferences: Vec::new(),
            confidence: UNCLASSIFIED_CONFIDENCE,
        };
        assert(strs(c.traits@) =~= seq![]);
        assert(strs(c.requirements@) =~= seq![]);
        assert(strs(c.prerequisites@) =~= seq![]);
        assert(strs(c.inferences@) =~= seq![]);
        return c;
    }
    let mut confidence: u32 = BASE_CONFIDENCE;
    if rule_type.is_none() {
        confidence = confidence - MISSING_TYPE_PENALTY;
    }
    let mut inferences: Vec<String> = Vec::new();
    if untagged > 0 {
        confidence = confidence - LEFTOVER_PENALTY;
        let mut note = usize_text(untagged);
        append_str(&mut note, " untagged line(s) present in source, not mapped to a known field");
        inferences.push(string_of(&note));
        assert(strs(inferences@) =~= seq![untagged_note(fv.untagged)]);
    } else {
        assert(strs(inferences@) =~= seq![]);
    }
    Candidate {
        candidate_id,
        rule_type: rt,
        name: opt_string(name),
        traits: strings_of(&traits),
        trigger: opt_string(trigger),
        requirements: strings_of(&requirements),
        effect: opt_string(effect),
        prerequisites: strings_of(&prerequisites),
        references,
        source_text,
        inferences,
        confidence,
    }
}

/// Identifiers pairwise distinct.
pub open spec fn distinct_ids(ids: Seq<u128>) -> bool {
    forall|a: int, b: int| 0 <= a < b < ids.len() ==> ids[a] != ids[b]
}

/// The bits `k` moves in an identifier while keeping it a version 4 UUID:
/// its low 62 bits in place, its top two bits at 64 and 65.
spec fn spread(k: u64) -> u128 {
    ((k as u128) & 0x3fff_ffff_ffff_ffffu128) | (((k as u128) >> 62u128) << 64u128)
}

proof fn lemma_spread_facts(v: u128, a: u64, b: u64)
    ensures
        is_random_uuid(v) ==> is_random_uuid(v ^ spread(a)),
        (v ^ spread(a)) == (v ^ spread(b)) ==> a == b,
{
    assert(((v >> 76u128) & 0xfu128 == 4 && (v >> 62u128) & 0x3u128 == 2) ==> (((v ^ (((a as u128)
        & 0x3fff_ffff_ffff_ffffu128) | (((a as u128) >> 62u128) << 64u128))) >> 76u128) & 0xfu128
        == 4 && ((v ^ (((a as u128) & 0x3fff_ffff_ffff_ffffu128) | (((a as u128) >> 62u128)
        << 64u128))) >> 62u128) & 0x3u128 == 2)) by (bit_vector);
    assert((v ^ (((a as u128) & 0x3fff_ffff_ffff_ffffu128) | (((a as u128) >> 62u128) << 64u128)))
        == (v ^ (((b as u128) & 0x3fff_ffff_ffff_ffffu128) | (((b as u128) >> 62u128) << 64u128)))
        ==> a == b) by (bit_vector);
}

/// If `m` distinct moves of `v` are all taken, at least `m` identifiers
/// are taken.
proof fn lemma_taken_moves(taken: Seq<u128>, v: u128, m: int)
    requires
        0 <= m <= u64::MAX + 1,
        forall|j: int| 0 <= j < m ==> taken.contains(#[trigger] (v ^ spread(j as u64))),
    ensures
        m <= taken.len(),
{
    let f = |j: int| v ^ spread(j as u64);
    let dom = vstd::set_lib::set_int_range(0, m);
    vstd::set_lib::lemma_int_range(0, m);
    assert forall|x: int, y: int| dom.contains(x) && dom.contains(y) && #[trigger] f(x) == #[trigger] f(
        y,
    ) implies x == y by {
        lemma_spread_facts(v, x as u64, y as u64);
    }
    assert(vstd::relations::injective_on(f, dom));
    vstd::set_lib::lemma_map_size(dom, dom.map(f), f);
    assert forall|w: u128| dom.map(f).contains(w) implies taken.to_set().contains(w) by {
        let j = choose|j: int| dom.contains(j) && f(j) == w;
        assert(taken.contains(v ^ spread(j as u64)));
    }
    taken.lemma_cardinality_of_set();
    vstd::set_lib::lemma_len_subset(dom.map(f), taken.to_set());
}

fn holds_id(ids: &Vec<u128>, v: u128) -> (r: bool)
    ensures
        r == ids@.contains(v),
{
    let mut i: usize = 0;
    while i < ids.len()
        invariant
            i <= ids.len(),
            forall|k: int| 0 <= k < i ==> ids@[k] != v,
        decreases ids.len() - i,
    {
        if ids[i] == v {
            return true;
        }
        i = i + 1;
    }
    false
}

/// A fresh random identifier none of `taken` holds: a new version 4 UUID,
/// and in the unlikely case that it is taken, the first of its variants
/// (other random bits changed) that is not.
fn fresh_id(taken: &Vec<u128>) -> (r: u128)
    ensures
        is_random_uuid(r),
        !taken@.contains(r),
{
    let v = crate::ids::new_candidate_id();
    let n: usize = taken.len();
    let mut k: u64 = 0;
    loop
        invariant
            n == taken.len(),
            is_random_uuid(v),
            k <= n,
            forall|j: int| 0 <= j < k ==> taken@.contains(#[trigger] (v ^ spread(j as u64))),
        decreases n - k,
    {
        let moved: u128 = v ^ (((k as u128) & 0x3fff_ffff_ffff_ffffu128) | (((k as u128) >> 62u128)
            << 64u128));
        assert(moved == v ^ spread(k));
        if !holds_id(taken, moved) {
            proof {
                lemma_spread_facts(v, k, k);
            }
            return moved;
        }
        proof {
            assert forall|j: int| 0 <= j < k + 1 implies taken@.contains(
                #[trigger] (v ^ spread(j as u64)),
            ) by {
                if j == k {
                    assert(j as u64 == k);
                }
            }
            lemma_taken_moves(taken@, v, k + 1);
        }
        k = k + 1;
    }
}

/// Parses `source_text` into one candidate per block. Never fails:
/// content without recognizable structure becomes a low-confidence
/// `Unclassified` candidate. Each candidate gets a fresh random
/// (version 4) UUID as its identifier, no two the same.
pub fn parse_candidates(source_text: &str) -> (r: Vec<Candidate>)
    ensures
        r.len() == blocks(source_text@).len(),
        forall|i: int| 0 <= i < r.len() ==> is_random_uuid(#[trigger] r[i].candidate_id),
        distinct_ids(r@.map_values(|c: Candidate| c.candidate_id)),
        forall|i: int|
            0 <= i < r.len() ==> (#[trigger] r[i])@ == block_candidate(
                blocks(source_text@)[i],
                r[i].candidate_id,
            ),
{
    let s = chars_of(source_text);
    let pieces = split_blocks(&s);
    let bs = keep_trimmed_nonempty(&pieces);
    let mut out: Vec<Candidate> = Vec::new();
    let mut ids: Vec<u128> = Vec::new();
    let mut i: usize = 0;
    while i < bs.len()
        invariant
            i <= bs.len(),
            views(bs@) == blocks(source_text@),
            out.len() == i,
            forall|k: int|
                0 <= k < i ==> (#[trigger] out[k])@ == block_candidate(
                    views(bs@)[k],
                    out[k].candidate_id,
                ),
            forall|k: int| 0 <= k < i ==> is_random_uuid(#[trigger] out[k].candidate_id),
            ids.len() == i,
            forall|k: int| 0 <= k < i ==> #[trigger] ids@[k] == out@[k].candidate_id,
            distinct_ids(ids@),
        decreases bs.len() - i,
    {
        let id = fresh_id(&ids);
        let c = parse_block_chars(&bs[i], id);
        proof {
            assert forall|k: int| 0 <= k < i implies ids@[k] != id by {
                assert(ids@.contains(ids@[k]));
            }
        }
        out.push(c);
        ids.push(id);
        i = i + 1;
    }
    proof {
        assert(out@.map_values(|c: Candidate| c.candidate_id) =~= ids@);
    }
    out
}

} // verus!
