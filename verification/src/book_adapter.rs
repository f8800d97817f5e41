//! Converts raw book-extracted PF2e page chunks into the `Type:` /
//! `Label:` block grammar that `parser` reads, one converter per book
//! layout: actions (`convert_page`), feats (`convert_feat_page`) and the
//! conditions glossary (`convert_condition_page`). The parser's grammar
//! is not widened; book conventions are handled here only.
//!
//! Actions: an entry starts at an all-caps heading that ends in an
//! action-cost marker (`[one-action]`, `[two-actions]`,
//! `[three-actions]`, `[free-action]`, `[reaction]`); a first
//! paragraph of at most two all-caps words is its trait; paragraphs
//! opening with `Requirements` or `Trigger` (no colon) give that field up
//! to the first `. `; everything else goes to `Effect` verbatim.
//!
//! Feats: an entry starts at a run of all-caps lines and `FEAT <level>`
//! markers that holds at least one marker; its first all-caps line is
//! the name, the other distinct ones are traits. A `FEAT <level>` line
//! never starts such a run itself.
//!
//! Conditions: only lines after a `List of Conditions` line count; an
//! entry starts at a line of one or two strict Title Case words with no
//! punctuation, and bare page numbers are dropped.
//!
//! Every block a converter writes reads back under the parser as the
//! entry it came from (the `law_..._read_back` proofs at the end).

use vstd::prelude::*;

use crate::text::{
    is_letter, append, char_to_upper, chars_of, eq_ignore_ascii_case, find, find_in,
    is_alphabetic, is_digit, is_lowercase, is_trimmed_text, is_uppercase, join, join_str,
    lemma_find_from, lemma_items_of_join,
    lemma_join_lacks, lemma_join_trimmed, lemma_lines_lack_newline,
    lemma_prefixed_one_line, lemma_subrange_lacks, lemma_take_full,
    lemma_take_succ, lemma_trim_nonempty, lemma_trim_of_trimmed,
    lemma_trim_parts, lemma_trimmed_part_one_line, lemma_views_push, lines, lines_of, lowercase_of,
    is_lower, one_line, same_ignoring_ascii_case, slice, string_of, strip_prefix, strip_prefix_of,
    strip_suffix, strip_suffix_of, to_lower, trim, trimmed, uppercase_of, is_upper, views, words,
    words_of,
};
use crate::domain::{
    CandidateView, RuleType,
};
use crate::parser::{
    BASE_CONFIDENCE, LabeledFields, bare_type, block_candidate, blocks, label_split,
    lemma_content_lines_of_join, lemma_label_keys_distinct, lemma_labeled_line, lemma_scan_push,
    list_items, no_fields, normalized_type, scan_lines, has_no_separator_line,
    lemma_blocks_of_join, lemma_block_lines_no_separator, lemma_label_words_lowercase,
};

verus! {

// ---------------------------------------------------------------------
// Shared pieces
// ---------------------------------------------------------------------

/// Text with at least one letter, every letter uppercase.
pub open spec fn shouty(t: Seq<char>) -> bool {
    (exists|i: int| 0 <= i < t.len() && is_letter(#[trigger] t[i])) && forall|i: int|
        0 <= i < t.len() && is_letter(#[trigger] t[i]) ==> is_upper(t[i])
}

fn is_shouty(t: &Vec<char>) -> (r: bool)
    ensures
        r == shouty(t@),
{
    let mut any = false;
    let mut all = true;
    let mut i: usize = 0;
    while i < t.len()
        invariant
            i <= t.len(),
            any == (exists|k: int| 0 <= k < i && is_letter(#[trigger] t@[k])),
            all == (forall|k: int| 0 <= k < i && is_letter(#[trigger] t@[k]) ==> is_upper(t@[k])),
        decreases t.len() - i,
    {
        let c = t[i];
        if is_alphabetic(c) {
            any = true;
            if !is_uppercase(c) {
                all = false;
            }
        }
        i = i + 1;
    }
    any && all
}

/// A word with its first character uppercased and the rest lowercased.
pub open spec fn title_word(w: Seq<char>) -> Seq<char> {
    if w.len() == 0 {
        seq![]
    } else {
        uppercase_of(w[0]) + lowercase_of(w.skip(1))
    }
}

/// The words of `t` in title case, joined by single spaces.
pub open spec fn title_cased(t: Seq<char>) -> Seq<char> {
    join(words(t).map_values(|w: Seq<char>| title_word(w)), " "@)
}

fn title_case(t: &Vec<char>) -> (r: Vec<char>)
    ensures
        r@ == title_cased(t@),
{
    let ws = words_of(t);
    let mut titled: Vec<Vec<char>> = Vec::new();
    let mut i: usize = 0;
    while i < ws.len()
        invariant
            i <= ws.len(),
            views(titled@) == views(ws@).take(i as int).map_values(
                |w: Seq<char>| title_word(w),
            ),
        decreases ws.len() - i,
    {
        let w = &ws[i];
        let mut out: Vec<char> = Vec::new();
        if w.len() > 0 {
            out = char_to_upper(w[0]);
            let rest = slice(w, 1, w.len());
            let low = to_lower(&rest);
            append(&mut out, &low);
            assert(rest@ =~= w@.skip(1));
        }
        proof {
            lemma_views_push(titled@, out);
            assert(views(ws@).take(i + 1).map_values(|w: Seq<char>| title_word(w)) =~= views(
                ws@,
            ).take(i as int).map_values(|w: Seq<char>| title_word(w)).push(title_word(w@)));
        }
        titled.push(out);
        i = i + 1;
    }
    proof {
        lemma_take_full(views(ws@));
    }
    join_str(&titled, " ")
}

/// Body lines grouped into paragraphs on blank lines, each paragraph's
/// lines joined by a space; the finished paragraphs and the lines of the
/// one still being read.
pub open spec fn paragraphs_acc(ls: Seq<Seq<char>>) -> (Seq<Seq<char>>, Seq<Seq<char>>)
    decreases ls.len(),
{
    if ls.len() == 0 {
        (seq![], seq![])
    } else {
        let prev = paragraphs_acc(ls.drop_last());
        let line = ls.last();
        if line.len() == 0 {
            if prev.1.len() > 0 {
                (prev.0.push(join(prev.1, " "@)), seq![])
            } else {
                prev
            }
        } else {
            (prev.0, prev.1.push(line))
        }
    }
}

pub open spec fn paragraphs(ls: Seq<Seq<char>>) -> Seq<Seq<char>> {
    let a = paragraphs_acc(ls);
    if a.1.len() > 0 {
        a.0.push(join(a.1, " "@))
    } else {
        a.0
    }
}

fn group_paragraphs(ls: &Vec<Vec<char>>) -> (r: Vec<Vec<char>>)
    ensures
        views(r@) == paragraphs(views(ls@)),
{
    let mut done: Vec<Vec<char>> = Vec::new();
    let mut cur: Vec<Vec<char>> = Vec::new();
    let mut i: usize = 0;
    while i < ls.len()
        invariant
            i <= ls.len(),
            (views(done@), views(cur@)) == paragraphs_acc(views(ls@).take(i as int)),
        decreases ls.len() - i,
    {
        proof {
            lemma_take_succ(views(ls@), i as int);
        }
        let line = &ls[i];
        if line.len() == 0 {
            if cur.len() > 0 {
                let p = join_str(&cur, " ");
                proof {
                    lemma_views_push(done@, p);
                }
                done.push(p);
                cur = Vec::new();
                assert(views(cur@) =~= seq![]);
            }
        } else {
            proof {
                lemma_views_push(cur@, *line);
            }
            cur.push(line.clone());
        }
        i = i + 1;
    }
    proof {
        lemma_take_full(views(ls@));
    }
    if cur.len() > 0 {
        let p = join_str(&cur, " ");
        proof {
            lemma_views_push(done@, p);
        }
        done.push(p);
    }
    done
}


// ---------------------------------------------------------------------
// Actions
// ---------------------------------------------------------------------

/// `line` as a heading ending in `marker`: the title-cased name before
/// the marker, if it is non-empty and all caps, with `label`.
pub open spec fn heading_with(line: Seq<char>, marker: Seq<char>, label: Seq<char>) -> Option<
    (Seq<char>, Seq<char>),
> {
    match strip_suffix(line, marker) {
        Some(prefix) => {
            let name = trim(prefix);
            if name.len() > 0 && shouty(name) {
                Some((title_cased(name), label))
            } else {
                None
            }
        },
        None => None,
    }
}

/// The entry heading `line` is, trying the action-cost markers in order.
pub open spec fn action_heading(line: Seq<char>) -> Option<(Seq<char>, Seq<char>)> {
    match heading_with(line, "[one-action]"@, "Action"@) {
        Some(h) => Some(h),
        None => match heading_with(line, "[two-actions]"@, "Action"@) {
            Some(h) => Some(h),
            None => match heading_with(line, "[three-actions]"@, "Action"@) {
                Some(h) => Some(h),
                None => match heading_with(line, "[free-action]"@, "Free Action"@) {
                    Some(h) => Some(h),
                    None => heading_with(line, "[reaction]"@, "Reaction"@),
                },
            },
        },
    }
}

fn heading_with_of(line: &Vec<char>, marker: &str, label: &str) -> (r: Option<
    (Vec<char>, Vec<char>),
>)
    ensures
        r matches Some((n, l)) ==> heading_with(line@, marker@, label@) == Some((n@, l@)),
        r is None ==> heading_with(line@, marker@, label@) is None,
{
    let m = chars_of(marker);
    match strip_suffix_of(line, &m) {
        Some(prefix) => {
            let name = trimmed(&prefix);
            if name.len() > 0 && is_shouty(&name) {
                let t = title_case(&name);
                let l = chars_of(label);
                Some((t, l))
            } else {
                None
            }
        },
        None => None,
    }
}

fn detect_heading(line: &Vec<char>) -> (r: Option<(Vec<char>, Vec<char>)>)
    ensures
        r matches Some((n, l)) ==> action_heading(line@) == Some((n@, l@)),
        r is None ==> action_heading(line@) is None,
{
    if let Some(h) = heading_with_of(line, "[one-action]", "Action") {
        return Some(h);
    }
    if let Some(h) = heading_with_of(line, "[two-actions]", "Action") {
        return Some(h);
    }
    if let Some(h) = heading_with_of(line, "[three-actions]", "Action") {
        return Some(h);
    }
    if let Some(h) = heading_with_of(line, "[free-action]", "Free Action") {
        return Some(h);
    }
    heading_with_of(line, "[reaction]", "Reaction")
}

/// One action entry as read off the page.
pub struct ActionEntry {
    pub name: Seq<char>,
    pub label: Seq<char>,
    pub body: Seq<Seq<char>>,
}

/// The finished entries and the one still being read, scanning the lines
/// of a page in order. Lines before the first heading belong to no
/// entry.
pub open spec fn action_entries_acc(ls: Seq<Seq<char>>) -> (Seq<ActionEntry>, Option<ActionEntry>)
    decreases ls.len(),
{
    if ls.len() == 0 {
        (seq![], None)
    } else {
        let prev = action_entries_acc(ls.drop_last());
        let line = trim(ls.last());
        match action_heading(line) {
            Some((name, label)) => (
                match prev.1 {
                    Some(e) => prev.0.push(e),
                    None => prev.0,
                },
                Some(ActionEntry { name, label, body: seq![] }),
            ),
            None => (
                prev.0,
                match prev.1 {
                    Some(e) => Some(ActionEntry { body: e.body.push(line), ..e }),
                    None => None,
                },
            ),
        }
    }
}

/// The action entries of a page.
pub open spec fn action_entries(text: Seq<char>) -> Seq<ActionEntry> {
    let a = action_entries_acc(lines(text));
    match a.1 {
        Some(e) => a.0.push(e),
        None => a.0,
    }
}

struct RawEntry {
    name: Vec<char>,
    label: Vec<char>,
    body: Vec<Vec<char>>,
}

impl View for RawEntry {
    type V = ActionEntry;

    closed spec fn view(&self) -> ActionEntry {
        ActionEntry { name: self.name@, label: self.label@, body: views(self.body@) }
    }
}

spec fn entry_views(v: Seq<RawEntry>) -> Seq<ActionEntry> {
    v.map_values(|e: RawEntry| e@)
}

spec fn opt_entry(o: Option<RawEntry>) -> Option<ActionEntry> {
    match o {
        Some(e) => Some(e@),
        None => None,
    }
}

fn split_entries(text: &Vec<char>) -> (r: Vec<RawEntry>)
    ensures
        entry_views(r@) == action_entries(text@),
{
    let ls = lines_of(text);
    let mut done: Vec<RawEntry> = Vec::new();
    let mut cur: Option<RawEntry> = None;
    let mut i: usize = 0;
    while i < ls.len()
        invariant
            i <= ls.len(),
            views(ls@) == lines(text@),
            (entry_views(done@), opt_entry(cur)) == action_entries_acc(views(ls@).take(i as int)),
        decreases ls.len() - i,
    {
        proof {
            lemma_take_succ(views(ls@), i as int);
        }
        let line = trimmed(&ls[i]);
        match detect_heading(&line) {
            Some((name, label)) => {
                match cur {
                    Some(e) => {
                        proof {
                            assert(entry_views(done@.push(e)) =~= entry_views(done@).push(e@));
                        }
                        done.push(e);
                    },
                    None => {},
                }
                let fresh = RawEntry { name, label, body: Vec::new() };
                assert(views(fresh.body@) =~= seq![]);
                cur = Some(fresh);
            },
            None => {
                match cur {
                    Some(e) => {
                        let mut e = e;
                        proof {
                            lemma_views_push(e.body@, line);
                        }
                        e.body.push(line);
                        cur = Some(e);
                    },
                    None => {},
                }
            },
        }
        i = i + 1;
    }
    proof {
        lemma_take_full(views(ls@));
    }
    match cur {
        Some(e) => {
            proof {
                assert(entry_views(done@.push(e)) =~= entry_views(done@).push(e@));
            }
            done.push(e);
        },
        None => {},
    }
    done
}

/// A paragraph that opens with `label` and a space: the value up to and
/// including the first `. ` sentence end (trimmed), and the rest of the
/// paragraph, if any is left after trimming.
pub open spec fn book_label(paragraph: Seq<char>, label: Seq<char>) -> Option<
    (Seq<char>, Option<Seq<char>>),
> {
    match strip_prefix(paragraph, label) {
        Some(after) => match strip_prefix(after, " "@) {
            Some(rest) => match find(rest, ". "@) {
                Some(i) => {
                    let remainder = trim(rest.skip(i + 1));
                    Some(
                        (
                            trim(rest.take(i + 1)),
                            if remainder.len() > 0 {
                                Some(remainder)
                            } else {
                                None
                            },
                        ),
                    )
                },
                None => Some((trim(rest), None)),
            },
            None => None,
        },
        None => None,
    }
}

fn extract_book_label(paragraph: &Vec<char>, label: &str) -> (r: Option<
    (Vec<char>, Option<Vec<char>>),
>)
    ensures
        r matches Some((v, o)) ==> book_label(paragraph@, label@) == Some(
            (
                v@,
                match o {
                    Some(x) => Some(x@),
                    None => None,
                },
            ),
        ),
        r is None ==> book_label(paragraph@, label@) is None,
{
    let l = chars_of(label);
    let after = match strip_prefix_of(paragraph, &l) {
        Some(a) => a,
        None => return None,
    };
    let space = chars_of(" ");
    let rest = match strip_prefix_of(&after, &space) {
        Some(r) => r,
        None => return None,
    };
    let stop = chars_of(". ");
    proof {
        reveal_strlit(". ");
        assert(stop@.len() == 2);
    }
    match find_in(&rest, &stop, 0) {
        Some(i) => {
            proof {
                lemma_find_from(rest@, stop@, 0);
            }
            let head = slice(&rest, 0, i + 1);
            let tail = slice(&rest, i + 1, rest.len());
            assert(head@ =~= rest@.take(i + 1));
            assert(tail@ =~= rest@.skip(i + 1));
            let value = trimmed(&head);
            let remainder = trimmed(&tail);
            if remainder.len() > 0 {
                Some((value, Some(remainder)))
            } else {
                Some((value, None))
            }
        },
        None => {
            let value = trimmed(&rest);
            Some((value, None))
        },
    }
}

/// What the paragraphs of an action entry give, read in order.
pub struct ActionFields {
    pub traits: Seq<Seq<char>>,
    pub trigger: Option<Seq<char>>,
    pub requirements: Option<Seq<char>>,
    pub effect_parts: Seq<Seq<char>>,
}

pub open spec fn opt_seq(o: Option<Seq<char>>) -> Seq<Seq<char>> {
    match o {
        Some(x) => seq![x],
        None => seq![],
    }
}

pub open spec fn read_paragraph(f: ActionFields, index: int, p: Seq<char>) -> ActionFields {
    if index == 0 && shouty(p) && words(p).len() <= 2 {
        ActionFields { traits: f.traits.push(lowercase_of(p)), ..f }
    } else {
        match book_label(p, "Requirements"@) {
            Some((value, leftover)) => ActionFields {
                requirements: Some(value),
                effect_parts: f.effect_parts + opt_seq(leftover),
                ..f
            },
            None => match book_label(p, "Trigger"@) {
                Some((value, leftover)) => ActionFields {
                    trigger: Some(value),
                    effect_parts: f.effect_parts + opt_seq(leftover),
                    ..f
                },
                None => ActionFields { effect_parts: f.effect_parts.push(p), ..f },
            },
        }
    }
}

pub open spec fn read_paragraphs(ps: Seq<Seq<char>>) -> ActionFields
    decreases ps.len(),
{
    if ps.len() == 0 {
        ActionFields { traits: seq![], trigger: None, requirements: None, effect_parts: seq![] }
    } else {
        read_paragraph(read_paragraphs(ps.drop_last()), ps.len() - 1, ps.last())
    }
}

/// The block lines an action entry renders to.
pub open spec fn action_block_lines(e: ActionEntry) -> Seq<Seq<char>> {
    let f = read_paragraphs(paragraphs(e.body));
    seq![e.label, "Name: "@ + e.name] + (if f.traits.len() > 0 {
        seq!["Traits: "@ + join(f.traits, ", "@)]
    } else {
        seq![]
    }) + (match f.trigger {
        Some(t) => seq!["Trigger: "@ + t],
        None => seq![],
    }) + (match f.requirements {
        Some(r) => seq!["Requirements: "@ + r],
        None => seq![],
    }) + (if f.effect_parts.len() > 0 {
        seq!["Effect: "@ + join(f.effect_parts, " "@)]
    } else {
        seq![]
    })
}

/// The block an action entry renders to.
pub open spec fn action_block(e: ActionEntry) -> Seq<char> {
    join(action_block_lines(e), "\n"@)
}

fn labeled(label: &str, value: &Vec<char>) -> (r: Vec<char>)
    ensures
        r@ == label@ + value@,
{
    let mut r = chars_of(label);
    append(&mut r, value);
    r
}

fn render_block(entry: &RawEntry) -> (r: Vec<char>)
    ensures
        r@ == action_block(entry@),
{
    let ps = group_paragraphs(&entry.body);
    let mut traits: Vec<Vec<char>> = Vec::new();
    let mut trigger: Option<Vec<char>> = None;
    let mut requirements: Option<Vec<char>> = None;
    let mut effect_parts: Vec<Vec<char>> = Vec::new();
    assert(views(traits@) =~= seq![]);
    assert(views(effect_parts@) =~= seq![]);
    let mut i: usize = 0;
    while i < ps.len()
        invariant
            i <= ps.len(),
            views(ps@) == paragraphs(entry@.body),
            read_paragraphs(views(ps@).take(i as int)) == (ActionFields {
                traits: views(traits@),
                trigger: crate::text::opt_chars(trigger),
                requirements: crate::text::opt_chars(requirements),
                effect_parts: views(effect_parts@),
            }),
        decreases ps.len() - i,
    {
        proof {
            lemma_take_succ(views(ps@), i as int);
        }
        let p = &ps[i];
        assert(views(ps@)[i as int] == p@);
        let ghost before = ActionFields {
            traits: views(traits@),
            trigger: crate::text::opt_chars(trigger),
            requirements: crate::text::opt_chars(requirements),
            effect_parts: views(effect_parts@),
        };
        let mut done = false;
        if i == 0 && is_shouty(p) {
            let ws = words_of(p);
            if ws.len() <= 2 {
                let low = to_lower(p);
                proof {
                    lemma_views_push(traits@, low);
                }
                traits.push(low);
                done = true;
            }
        }
        if !done {
            match extract_book_label(p, "Requirements") {
                Some((value, leftover)) => {
                    requirements = Some(value);
                    match leftover {
                        Some(x) => {
                            proof {
                                lemma_views_push(effect_parts@, x);
                            }
                            let ghost xv = x@;
                            effect_parts.push(x);
                            assert(views(effect_parts@) =~= before.effect_parts + seq![xv]);
                        },
                        None => {
                            assert(views(effect_parts@) =~= views(effect_parts@) + seq![]);
                        },
                    }
                },
                None => match extract_book_label(p, "Trigger") {
                    Some((value, leftover)) => {
                        trigger = Some(value);
                        match leftover {
                            Some(x) => {
                                proof {
                                    lemma_views_push(effect_parts@, x);
                                }
                                let ghost xv = x@;
                                effect_parts.push(x);
                                assert(views(effect_parts@) =~= before.effect_parts + seq![xv]);
                            },
                            None => {
                                assert(views(effect_parts@) =~= views(effect_parts@) + seq![]);
                            },
                        }
                    },
                    None => {
                        let c = p.clone();
                        assert(c@ =~= p@);
                        proof {
                            lemma_views_push(effect_parts@, c);
                        }
                        effect_parts.push(c);
                    },
                },
            }
        }
        assert((ActionFields {
            traits: views(traits@),
            trigger: crate::text::opt_chars(trigger),
            requirements: crate::text::opt_chars(requirements),
            effect_parts: views(effect_parts@),
        }) == read_paragraph(before, i as int, views(ps@)[i as int]));
        i = i + 1;
    }
    proof {
        lemma_take_full(views(ps@));
    }
    let ghost f = read_paragraphs(paragraphs(entry@.body));
    let mut out: Vec<Vec<char>> = Vec::new();
    out.push(entry.label.clone());
    let name_line = labeled("Name: ", &entry.name);
    out.push(name_line);
    let ghost head = views(out@);
    assert(head =~= seq![entry@.label, "Name: "@ + entry@.name]);
    if traits.len() > 0 {
        let joined = join_str(&traits, ", ");
        out.push(labeled("Traits: ", &joined));
    }
    let ghost after_traits = views(out@);
    assert(after_traits =~= head + (if f.traits.len() > 0 {
        seq!["Traits: "@ + join(f.traits, ", "@)]
    } else {
        seq![]
    }));
    match &trigger {
        Some(t) => {
            out.push(labeled("Trigger: ", t));
        },
        None => {},
    }
    let ghost after_trigger = views(out@);
    assert(after_trigger =~= after_traits + (match f.trigger {
        Some(t) => seq!["Trigger: "@ + t],
        None => seq![],
    }));
    match &requirements {
        Some(r) => {
            out.push(labeled("Requirements: ", r));
        },
        None => {},
    }
    let ghost after_requirements = views(out@);
    assert(after_requirements =~= after_trigger + (match f.requirements {
        Some(r) => seq!["Requirements: "@ + r],
        None => seq![],
    }));
    if effect_parts.len() > 0 {
        let joined = join_str(&effect_parts, " ");
        out.push(labeled("Effect: ", &joined));
    }
    assert(views(out@) =~= after_requirements + (if f.effect_parts.len() > 0 {
        seq!["Effect: "@ + join(f.effect_parts, " "@)]
    } else {
        seq![]
    }));
    join_str(&out, "\n")
}

/// The converted page: every action entry's block, joined by `\n---\n`.
pub open spec fn converted_actions(text: Seq<char>) -> Seq<char> {
    join(action_entries(text).map_values(|e: ActionEntry| action_block(e)), "\n---\n"@)
}

/// Converts one page chunk's raw extracted text into zero or more
/// `parser::parse_candidates`-ready blocks, joined by `---` lines.
pub fn convert_page(text: &str) -> (r: String)
    ensures
        r@ == converted_actions(text@),
{
    let t = chars_of(text);
    let entries = split_entries(&t);
    let mut blocks: Vec<Vec<char>> = Vec::new();
    let mut i: usize = 0;
    while i < entries.len()
        invariant
            i <= entries.len(),
            entry_views(entries@) == action_entries(text@),
            views(blocks@) == entry_views(entries@).take(i as int).map_values(
                |e: ActionEntry| action_block(e),
            ),
        decreases entries.len() - i,
    {
        let b = render_block(&entries[i]);
        proof {
            lemma_views_push(blocks@, b);
            assert(entry_views(entries@).take(i + 1).map_values(|e: ActionEntry| action_block(e))
                =~= entry_views(entries@).take(i as int).map_values(
                |e: ActionEntry| action_block(e),
            ).push(action_block(entries@[i as int]@)));
        }
        blocks.push(b);
        i = i + 1;
    }
    proof {
        lemma_take_full(entry_views(entries@));
    }
    let joined = join_str(&blocks, "\n---\n");
    string_of(&joined)
}


// ---------------------------------------------------------------------
// Feats
// ---------------------------------------------------------------------

/// How many all-caps lines one feat heading run may take before the scan
/// gives up looking for a `FEAT <level>` marker.
pub const MAX_HEADING_BLOCK_LINES: usize = 8;

/// A `FEAT <level>` line: `FEAT `, then one or more ASCII digits.
pub open spec fn is_feat_marker(line: Seq<char>) -> bool {
    match strip_prefix(line, "FEAT "@) {
        Some(rest) => rest.len() > 0 && forall|i: int| 0 <= i < rest.len() ==> is_digit(rest[i]),
        None => false,
    }
}

fn is_feat_level_marker(line: &Vec<char>) -> (r: bool)
    ensures
        r == is_feat_marker(line@),
{
    let prefix = chars_of("FEAT ");
    match strip_prefix_of(line, &prefix) {
        Some(rest) => {
            assert(strip_prefix(line@, "FEAT "@) == Some(rest@));
            if rest.len() == 0 {
                return false;
            }
            let mut i: usize = 0;
            while i < rest.len()
                invariant
                    i <= rest.len(),
                    strip_prefix(line@, "FEAT "@) == Some(rest@),
                    forall|k: int| 0 <= k < i ==> is_digit(rest@[k]),
                decreases rest.len() - i,
            {
                if !('0' <= rest[i] && rest[i] <= '9') {
                    assert(!is_digit(rest@[i as int]));
                    return false;
                }
                i = i + 1;
            }
            true
        },
        None => false,
    }
}

/// Scans a feat heading run from line `i`: blank lines are skipped,
/// markers noted, all-caps lines collected, until some other line, the
/// end, or more than `MAX_HEADING_BLOCK_LINES` collected lines. Gives the
/// collected lines, whether a marker was seen, and where the scan
/// stopped.
pub open spec fn heading_scan(ls: Seq<Seq<char>>, i: int, found: Seq<Seq<char>>, saw: bool) -> (
    Seq<Seq<char>>,
    bool,
    int,
)
    decreases ls.len() - i,
{
    if i < 0 || i >= ls.len() || found.len() > MAX_HEADING_BLOCK_LINES {
        (found, saw, i)
    } else if ls[i].len() == 0 {
        heading_scan(ls, i + 1, found, saw)
    } else if is_feat_marker(ls[i]) {
        heading_scan(ls, i + 1, found, true)
    } else if shouty(ls[i]) {
        heading_scan(ls, i + 1, found.push(ls[i]), saw)
    } else {
        (found, saw, i)
    }
}

/// The lowercased lines, each kept once, in order of first appearance.
pub open spec fn distinct_lowered(ls: Seq<Seq<char>>) -> Seq<Seq<char>>
    decreases ls.len(),
{
    if ls.len() == 0 {
        seq![]
    } else {
        let prev = distinct_lowered(ls.drop_last());
        let w = lowercase_of(ls.last());
        if prev.contains(w) {
            prev
        } else {
            prev.push(w)
        }
    }
}

/// The feat heading starting at line `start`: its title-cased name, its
/// traits and the line after it; none if the run holds no marker.
pub open spec fn feat_heading(ls: Seq<Seq<char>>, start: int) -> Option<
    (Seq<char>, Seq<Seq<char>>, int),
> {
    let scan = heading_scan(ls, start, seq![], false);
    if !scan.1 || scan.0.len() == 0 {
        None
    } else {
        Some((title_cased(scan.0[0]), distinct_lowered(scan.0.skip(1)), scan.2))
    }
}

proof fn lemma_heading_scan_advances(ls: Seq<Seq<char>>, i: int, found: Seq<Seq<char>>, saw: bool)
    requires
        0 <= i,
    ensures
        heading_scan(ls, i, found, saw).2 >= i,
        i <= ls.len() ==> heading_scan(ls, i, found, saw).2 <= ls.len(),
    decreases ls.len() - i,
{
    if i < 0 || i >= ls.len() || found.len() > MAX_HEADING_BLOCK_LINES {
    } else if ls[i].len() == 0 {
        lemma_heading_scan_advances(ls, i + 1, found, saw);
    } else if is_feat_marker(ls[i]) {
        lemma_heading_scan_advances(ls, i + 1, found, true);
    } else if shouty(ls[i]) {
        lemma_heading_scan_advances(ls, i + 1, found.push(ls[i]), saw);
    } else {
    }
}

fn contains_chars(v: &Vec<Vec<char>>, w: &Vec<char>) -> (r: bool)
    ensures
        r == views(v@).contains(w@),
{
    let mut i: usize = 0;
    while i < v.len()
        invariant
            i <= v.len(),
            forall|k: int| 0 <= k < i ==> views(v@)[k] != w@,
        decreases v.len() - i,
    {
        if crate::text::same(&v[i], w) {
            assert(views(v@)[i as int] == w@);
            return true;
        }
        i = i + 1;
    }
    false
}

fn scan_heading_run(ls: &Vec<Vec<char>>, start: usize) -> (r: (Vec<Vec<char>>, bool, usize))
    requires
        start <= ls.len(),
    ensures
        heading_scan(views(ls@), start as int, seq![], false) == (views(r.0@), r.1, r.2 as int),
{
    let ghost lv = views(ls@);
    let mut index: usize = start;
    let mut found: Vec<Vec<char>> = Vec::new();
    let mut saw = false;
    let mut stopped = false;
    assert(views(found@) =~= seq![]);
    while !stopped && index < ls.len() && found.len() <= MAX_HEADING_BLOCK_LINES
        invariant
            start <= index <= ls.len(),
            lv == views(ls@),
            stopped ==> heading_scan(lv, start as int, seq![], false) == (
                views(found@),
                saw,
                index as int,
            ),
            !stopped ==> heading_scan(lv, start as int, seq![], false) == heading_scan(
                lv,
                index as int,
                views(found@),
                saw,
            ),
        decreases ls.len() - index, if stopped {
            0int
        } else {
            1int
        },
    {
        let line = &ls[index];
        assert(lv[index as int] == line@);
        if line.len() == 0 {
            index = index + 1;
        } else if is_feat_level_marker(line) {
            saw = true;
            index = index + 1;
        } else if is_shouty(line) {
            let c = line.clone();
            assert(c@ =~= line@);
            proof {
                lemma_views_push(found@, c);
            }
            found.push(c);
            index = index + 1;
        } else {
            stopped = true;
        }
    }
    (found, saw, index)
}

fn distinct_lowered_of(ls: &Vec<Vec<char>>) -> (r: Vec<Vec<char>>)
    ensures
        views(r@) == distinct_lowered(views(ls@)),
{
    let mut traits: Vec<Vec<char>> = Vec::new();
    let mut k: usize = 0;
    assert(views(traits@) =~= seq![]);
    while k < ls.len()
        invariant
            k <= ls.len(),
            views(traits@) == distinct_lowered(views(ls@).take(k as int)),
        decreases ls.len() - k,
    {
        proof {
            lemma_take_succ(views(ls@), k as int);
        }
        let w = to_lower(&ls[k]);
        if !contains_chars(&traits, &w) {
            proof {
                lemma_views_push(traits@, w);
            }
            traits.push(w);
        }
        k = k + 1;
    }
    proof {
        lemma_take_full(views(ls@));
    }
    traits
}

fn try_read_heading_block(ls: &Vec<Vec<char>>, start: usize) -> (r: Option<
    (Vec<char>, Vec<Vec<char>>, usize),
>)
    ensures
        r matches Some((n, t, next)) ==> feat_heading(views(ls@), start as int) == Some(
            (n@, views(t@), next as int),
        ),
        r is None ==> feat_heading(views(ls@), start as int) is None,
{
    if start > ls.len() {
        return None;
    }
    let (found, saw, index) = scan_heading_run(ls, start);
    if !saw || found.len() == 0 {
        return None;
    }
    let name = title_case(&found[0]);
    let rest = slice_lines(&found, 1);
    let traits = distinct_lowered_of(&rest);
    Some((name, traits, index))
}

fn slice_lines(ls: &Vec<Vec<char>>, from: usize) -> (r: Vec<Vec<char>>)
    requires
        from <= ls.len(),
    ensures
        views(r@) == views(ls@).skip(from as int),
{
    let mut r: Vec<Vec<char>> = Vec::new();
    let mut i: usize = from;
    while i < ls.len()
        invariant
            from <= i <= ls.len(),
            views(r@) == views(ls@).subrange(from as int, i as int),
        decreases ls.len() - i,
    {
        let c = ls[i].clone();
        assert(c@ =~= ls@[i as int]@);
        proof {
            lemma_views_push(r@, c);
            assert(views(ls@).subrange(from as int, i + 1) =~= views(ls@).subrange(
                from as int,
                i as int,
            ).push(c@));
        }
        r.push(c);
        i = i + 1;
    }
    assert(views(ls@).subrange(from as int, ls.len() as int) =~= views(ls@).skip(from as int));
    r
}

/// One feat entry as read off the page.
pub struct FeatEntry {
    pub name: Seq<char>,
    pub traits: Seq<Seq<char>>,
    pub body: Seq<Seq<char>>,
}

pub open spec fn with_feat(done: Seq<FeatEntry>, cur: Option<FeatEntry>) -> Seq<FeatEntry> {
    match cur {
        Some(e) => done.push(e),
        None => done,
    }
}

/// The feat entries of the (trimmed) lines from index `i` on, given the
/// entries already finished and the one being read.
pub open spec fn feat_entries_from(
    ls: Seq<Seq<char>>,
    i: int,
    done: Seq<FeatEntry>,
    cur: Option<FeatEntry>,
) -> Seq<FeatEntry>
    decreases ls.len() - i,
{
    if i < 0 || i >= ls.len() {
        with_feat(done, cur)
    } else if ls[i].len() == 0 {
        feat_entries_from(ls, i + 1, done, cur)
    } else if shouty(ls[i]) && !is_feat_marker(ls[i]) && feat_heading(ls, i) is Some && i
        < feat_heading(ls, i).unwrap().2 <= ls.len() {
        let h = feat_heading(ls, i).unwrap();
        feat_entries_from(
            ls,
            h.2,
            with_feat(done, cur),
            Some(FeatEntry { name: h.0, traits: h.1, body: seq![] }),
        )
    } else {
        feat_entries_from(
            ls,
            i + 1,
            done,
            match cur {
                Some(e) => Some(FeatEntry { body: e.body.push(ls[i]), ..e }),
                None => None,
            },
        )
    }
}

/// The lines of a page, each trimmed.
pub open spec fn trimmed_lines(text: Seq<char>) -> Seq<Seq<char>> {
    lines(text).map_values(|l: Seq<char>| trim(l))
}

/// The feat entries of a page.
pub open spec fn feat_entries(text: Seq<char>) -> Seq<FeatEntry> {
    feat_entries_from(trimmed_lines(text), 0, seq![], None)
}

struct RawFeatEntry {
    name: Vec<char>,
    traits: Vec<Vec<char>>,
    body: Vec<Vec<char>>,
}

impl View for RawFeatEntry {
    type V = FeatEntry;

    closed spec fn view(&self) -> FeatEntry {
        FeatEntry { name: self.name@, traits: views(self.traits@), body: views(self.body@) }
    }
}

spec fn feat_views(v: Seq<RawFeatEntry>) -> Seq<FeatEntry> {
    v.map_values(|e: RawFeatEntry| e@)
}

spec fn opt_feat(o: Option<RawFeatEntry>) -> Option<FeatEntry> {
    match o {
        Some(e) => Some(e@),
        None => None,
    }
}

fn trim_all(ls: &Vec<Vec<char>>) -> (r: Vec<Vec<char>>)
    ensures
        views(r@) == views(ls@).map_values(|l: Seq<char>| trim(l)),
{
    let mut r: Vec<Vec<char>> = Vec::new();
    let mut i: usize = 0;
    while i < ls.len()
        invariant
            i <= ls.len(),
            views(r@) == views(ls@).take(i as int).map_values(|l: Seq<char>| trim(l)),
        decreases ls.len() - i,
    {
        let t = trimmed(&ls[i]);
        proof {
            lemma_views_push(r@, t);
            assert(views(ls@).take(i + 1).map_values(|l: Seq<char>| trim(l)) =~= views(ls@).take(
                i as int,
            ).map_values(|l: Seq<char>| trim(l)).push(trim(ls@[i as int]@)));
        }
        r.push(t);
        i = i + 1;
    }
    proof {
        lemma_take_full(views(ls@));
    }
    r
}

fn split_feat_entries(text: &Vec<char>) -> (r: Vec<RawFeatEntry>)
    ensures
        feat_views(r@) == feat_entries(text@),
{
    let raw = lines_of(text);
    let ls = trim_all(&raw);
    let ghost lv = views(ls@);
    assert(lv == trimmed_lines(text@));
    let mut done: Vec<RawFeatEntry> = Vec::new();
    let mut cur: Option<RawFeatEntry> = None;
    let mut index: usize = 0;
    assert(feat_views(done@) =~= seq![]);
    while index < ls.len()
        invariant
            index <= ls.len(),
            lv == views(ls@),
            feat_entries_from(lv, index as int, feat_views(done@), opt_feat(cur)) == feat_entries(
                text@,
            ),
        decreases ls.len() - index,
    {
        let line = &ls[index];
        assert(lv[index as int] == line@);
        if line.len() == 0 {
            index = index + 1;
            continue;
        }
        if is_shouty(line) && !is_feat_level_marker(line) {
            if let Some((name, traits, next)) = try_read_heading_block(&ls, index) {
                proof {
                    lemma_heading_scan_advances(lv, index as int, seq![], false);
                    lemma_heading_scan_advances(lv, index + 1, seq![line@], false);
                }
                assert(next > index);
                match cur {
                    Some(e) => {
                        proof {
                            assert(feat_views(done@.push(e)) =~= feat_views(done@).push(e@));
                        }
                        done.push(e);
                    },
                    None => {},
                }
                let fresh = RawFeatEntry { name, traits, body: Vec::new() };
                assert(views(fresh.body@) =~= seq![]);
                cur = Some(fresh);
                index = next;
                continue;
            }
        }
        match cur {
            Some(e) => {
                let mut e = e;
                let c = line.clone();
                assert(c@ =~= line@);
                proof {
                    lemma_views_push(e.body@, c);
                }
                e.body.push(c);
                cur = Some(e);
            },
            None => {},
        }
        index = index + 1;
    }
    match cur {
        Some(e) => {
            proof {
                assert(feat_views(done@.push(e)) =~= feat_views(done@).push(e@));
            }
            done.push(e);
        },
        None => {},
    }
    done
}

/// The block lines a feat entry renders to.
pub open spec fn feat_block_lines(e: FeatEntry) -> Seq<Seq<char>> {
    let ps = paragraphs(e.body);
    seq!["Feat"@, "Name: "@ + e.name] + (if e.traits.len() > 0 {
        seq!["Traits: "@ + join(e.traits, ", "@)]
    } else {
        seq![]
    }) + (if ps.len() > 0 {
        seq!["Effect: "@ + join(ps, " "@)]
    } else {
        seq![]
    })
}

pub open spec fn feat_block(e: FeatEntry) -> Seq<char> {
    join(feat_block_lines(e), "\n"@)
}

fn render_feat_block(entry: &RawFeatEntry) -> (r: Vec<char>)
    ensures
        r@ == feat_block(entry@),
{
    let ps = group_paragraphs(&entry.body);
    let mut out: Vec<Vec<char>> = Vec::new();
    out.push(chars_of("Feat"));
    out.push(labeled("Name: ", &entry.name));
    let ghost head = views(out@);
    assert(head =~= seq!["Feat"@, "Name: "@ + entry@.name]);
    if entry.traits.len() > 0 {
        let joined = join_str(&entry.traits, ", ");
        out.push(labeled("Traits: ", &joined));
    }
    let ghost after_traits = views(out@);
    assert(after_traits =~= head + (if entry@.traits.len() > 0 {
        seq!["Traits: "@ + join(entry@.traits, ", "@)]
    } else {
        seq![]
    }));
    if ps.len() > 0 {
        let joined = join_str(&ps, " ");
        out.push(labeled("Effect: ", &joined));
    }
    assert(views(out@) =~= after_traits + (if views(ps@).len() > 0 {
        seq!["Effect: "@ + join(views(ps@), " "@)]
    } else {
        seq![]
    }));
    join_str(&out, "\n")
}

/// The converted feat page: every feat entry's block, joined by
/// `\n---\n`.
pub open spec fn converted_feats(text: Seq<char>) -> Seq<char> {
    join(feat_entries(text).map_values(|e: FeatEntry| feat_block(e)), "\n---\n"@)
}

/// Converts one page chunk's raw extracted text holding feat entries
/// into zero or more `parser::parse_candidates`-ready blocks.
pub fn convert_feat_page(text: &str) -> (r: String)
    ensures
        r@ == converted_feats(text@),
{
    let t = chars_of(text);
    let entries = split_feat_entries(&t);
    let mut blocks: Vec<Vec<char>> = Vec::new();
    let mut i: usize = 0;
    while i < entries.len()
        invariant
            i <= entries.len(),
            feat_views(entries@) == feat_entries(text@),
            views(blocks@) == feat_views(entries@).take(i as int).map_values(
                |e: FeatEntry| feat_block(e),
            ),
        decreases entries.len() - i,
    {
        let b = render_feat_block(&entries[i]);
        proof {
            lemma_views_push(blocks@, b);
            assert(feat_views(entries@).take(i + 1).map_values(|e: FeatEntry| feat_block(e))
                =~= feat_views(entries@).take(i as int).map_values(
                |e: FeatEntry| feat_block(e),
            ).push(feat_block(entries@[i as int]@)));
        }
        blocks.push(b);
        i = i + 1;
    }
    proof {
        lemma_take_full(feat_views(entries@));
    }
    let joined = join_str(&blocks, "\n---\n");
    string_of(&joined)
}


// ---------------------------------------------------------------------
// Conditions
// ---------------------------------------------------------------------

/// A bare page number: one or more ASCII digits.
pub open spec fn bare_page_number(line: Seq<char>) -> bool {
    line.len() > 0 && forall|i: int| 0 <= i < line.len() ==> is_digit(line[i])
}

/// An ASCII punctuation character, as `char::is_ascii_punctuation`.
pub open spec fn is_punctuation(c: char) -> bool {
    ('!' <= c && c <= '/') || (':' <= c && c <= '@') || ('[' <= c && c <= '`') || ('{' <= c
        && c <= '~')
}

/// A strict Title Case word: an uppercase first character, then no
/// uppercase letter and no punctuation.
pub open spec fn strict_title_word(w: Seq<char>) -> bool {
    w.len() > 0 && is_upper(w[0]) && forall|i: int|
        1 <= i < w.len() ==> title_tail_char(#[trigger] w[i])
}

/// A character allowed after the first of a strict Title Case word: a
/// lowercase letter, or a character that is neither a letter nor
/// punctuation.
pub open spec fn title_tail_char(c: char) -> bool {
    (!is_letter(c) || is_lower(c)) && !is_punctuation(c)
}

/// One or two words, each in strict Title Case.
pub open spec fn condition_heading_line(line: Seq<char>) -> bool {
    let ws = words(line);
    0 < ws.len() <= 2 && forall|i: int| 0 <= i < ws.len() ==> strict_title_word(#[trigger] ws[i])
}

fn is_page_number(line: &Vec<char>) -> (r: bool)
    ensures
        r == bare_page_number(line@),
{
    if line.len() == 0 {
        return false;
    }
    let mut i: usize = 0;
    while i < line.len()
        invariant
            i <= line.len(),
            forall|k: int| 0 <= k < i ==> is_digit(line@[k]),
        decreases line.len() - i,
    {
        if !('0' <= line[i] && line[i] <= '9') {
            assert(!is_digit(line@[i as int]));
            return false;
        }
        i = i + 1;
    }
    true
}

fn is_strict_title_case(w: &Vec<char>) -> (r: bool)
    ensures
        r == strict_title_word(w@),
{
    if w.len() == 0 || !is_uppercase(w[0]) {
        return false;
    }
    let mut i: usize = 1;
    while i < w.len()
        invariant
            1 <= i <= w.len(),
            forall|k: int| 1 <= k < i ==> title_tail_char(#[trigger] w@[k]),
        decreases w.len() - i,
    {
        let c = w[i];
        let punctuation = ('!' <= c && c <= '/') || (':' <= c && c <= '@') || ('[' <= c && c
            <= '`') || ('{' <= c && c <= '~');
        if punctuation || (is_alphabetic(c) && !is_lowercase(c)) {
            assert(!title_tail_char(w@[i as int]));
            return false;
        }
        i = i + 1;
    }
    true
}

fn is_condition_heading(line: &Vec<char>) -> (r: bool)
    ensures
        r == condition_heading_line(line@),
{
    let ws = words_of(line);
    if ws.len() == 0 || ws.len() > 2 {
        return false;
    }
    let mut i: usize = 0;
    while i < ws.len()
        invariant
            i <= ws.len(),
            0 < ws.len() <= 2,
            views(ws@) == words(line@),
            forall|k: int| 0 <= k < i ==> strict_title_word(#[trigger] views(ws@)[k]),
        decreases ws.len() - i,
    {
        if !is_strict_title_case(&ws[i]) {
            assert(!strict_title_word(views(ws@)[i as int]));
            return false;
        }
        i = i + 1;
    }
    true
}

/// One glossary entry as read off the page.
pub struct ConditionEntry {
    pub name: Seq<char>,
    pub body: Seq<Seq<char>>,
}

/// The finished entries, the one being read, and whether the
/// `List of Conditions` anchor has been passed, scanning in order.
pub open spec fn condition_acc(ls: Seq<Seq<char>>) -> (
    Seq<ConditionEntry>,
    Option<ConditionEntry>,
    bool,
)
    decreases ls.len(),
{
    if ls.len() == 0 {
        (seq![], None, false)
    } else {
        let prev = condition_acc(ls.drop_last());
        let line = trim(ls.last());
        if !prev.2 {
            (prev.0, prev.1, eq_ignore_ascii_case(line, "List of Conditions"@))
        } else if line.len() == 0 || bare_page_number(line) {
            prev
        } else if condition_heading_line(line) {
            (
                match prev.1 {
                    Some(e) => prev.0.push(e),
                    None => prev.0,
                },
                Some(ConditionEntry { name: line, body: seq![] }),
                true,
            )
        } else {
            (
                prev.0,
                match prev.1 {
                    Some(e) => Some(ConditionEntry { body: e.body.push(line), ..e }),
                    None => None,
                },
                true,
            )
        }
    }
}

/// The glossary entries of a page.
pub open spec fn condition_entries(text: Seq<char>) -> Seq<ConditionEntry> {
    let a = condition_acc(lines(text));
    match a.1 {
        Some(e) => a.0.push(e),
        None => a.0,
    }
}

struct RawConditionEntry {
    name: Vec<char>,
    body: Vec<Vec<char>>,
}

impl View for RawConditionEntry {
    type V = ConditionEntry;

    closed spec fn view(&self) -> ConditionEntry {
        ConditionEntry { name: self.name@, body: views(self.body@) }
    }
}

spec fn condition_views(v: Seq<RawConditionEntry>) -> Seq<ConditionEntry> {
    v.map_values(|e: RawConditionEntry| e@)
}

spec fn opt_condition(o: Option<RawConditionEntry>) -> Option<ConditionEntry> {
    match o {
        Some(e) => Some(e@),
        None => None,
    }
}

fn split_condition_entries(text: &Vec<char>) -> (r: Vec<RawConditionEntry>)
    ensures
        condition_views(r@) == condition_entries(text@),
{
    let ls = lines_of(text);
    let mut done: Vec<RawConditionEntry> = Vec::new();
    let mut cur: Option<RawConditionEntry> = None;
    let mut past_anchor = false;
    let mut i: usize = 0;
    assert(condition_views(done@) =~= seq![]);
    while i < ls.len()
        invariant
            i <= ls.len(),
            views(ls@) == lines(text@),
            (condition_views(done@), opt_condition(cur), past_anchor) == condition_acc(
                views(ls@).take(i as int),
            ),
        decreases ls.len() - i,
    {
        proof {
            lemma_take_succ(views(ls@), i as int);
        }
        let line = trimmed(&ls[i]);
        if !past_anchor {
            past_anchor = same_ignoring_ascii_case(&line, "List of Conditions");
        } else if line.len() == 0 || is_page_number(&line) {
        } else if is_condition_heading(&line) {
            match cur {
                Some(e) => {
                    proof {
                        assert(condition_views(done@.push(e)) =~= condition_views(done@).push(e@));
                    }
                    done.push(e);
                },
                None => {},
            }
            let fresh = RawConditionEntry { name: line, body: Vec::new() };
            assert(views(fresh.body@) =~= seq![]);
            cur = Some(fresh);
        } else {
            match cur {
                Some(e) => {
                    let mut e = e;
                    proof {
                        lemma_views_push(e.body@, line);
                    }
                    e.body.push(line);
                    cur = Some(e);
                },
                None => {},
            }
        }
        i = i + 1;
    }
    proof {
        lemma_take_full(views(ls@));
    }
    match cur {
        Some(e) => {
            proof {
                assert(condition_views(done@.push(e)) =~= condition_views(done@).push(e@));
            }
            done.push(e);
        },
        None => {},
    }
    done
}

/// The block lines a glossary entry renders to.
pub open spec fn condition_block_lines(e: ConditionEntry) -> Seq<Seq<char>> {
    let effect = trim(join(e.body, " "@));
    seq!["Condition"@, "Name: "@ + e.name] + (if effect.len() > 0 {
        seq!["Effect: "@ + effect]
    } else {
        seq![]
    })
}

pub open spec fn condition_block(e: ConditionEntry) -> Seq<char> {
    join(condition_block_lines(e), "\n"@)
}

fn render_condition_block(entry: &RawConditionEntry) -> (r: Vec<char>)
    ensures
        r@ == condition_block(entry@),
{
    let joined = join_str(&entry.body, " ");
    let effect = trimmed(&joined);
    let mut out: Vec<Vec<char>> = Vec::new();
    out.push(chars_of("Condition"));
    out.push(labeled("Name: ", &entry.name));
    let ghost head = views(out@);
    assert(head =~= seq!["Condition"@, "Name: "@ + entry@.name]);
    if effect.len() > 0 {
        out.push(labeled("Effect: ", &effect));
    }
    assert(views(out@) =~= head + (if effect@.len() > 0 {
        seq!["Effect: "@ + effect@]
    } else {
        seq![]
    }));
    join_str(&out, "\n")
}

/// The converted glossary page: every condition entry's block, joined by
/// `\n---\n`.
pub open spec fn converted_conditions(text: Seq<char>) -> Seq<char> {
    join(condition_entries(text).map_values(|e: ConditionEntry| condition_block(e)), "\n---\n"@)
}

/// Converts a Conditions Appendix page chunk's raw extracted text into
/// zero or more `parser::parse_candidates`-ready blocks.
pub fn convert_condition_page(text: &str) -> (r: String)
    ensures
        r@ == converted_conditions(text@),
{
    let t = chars_of(text);
    let entries = split_condition_entries(&t);
    let mut blocks: Vec<Vec<char>> = Vec::new();
    let mut i: usize = 0;
    while i < entries.len()
        invariant
            i <= entries.len(),
            condition_views(entries@) == condition_entries(text@),
            views(blocks@) == condition_views(entries@).take(i as int).map_values(
                |e: ConditionEntry| condition_block(e),
            ),
        decreases entries.len() - i,
    {
        let b = render_condition_block(&entries[i]);
        proof {
            lemma_views_push(blocks@, b);
            assert(condition_views(entries@).take(i + 1).map_values(
                |e: ConditionEntry| condition_block(e),
            ) =~= condition_views(entries@).take(i as int).map_values(
                |e: ConditionEntry| condition_block(e),
            ).push(condition_block(entries@[i as int]@)));
        }
        blocks.push(b);
        i = i + 1;
    }
    proof {
        lemma_take_full(condition_views(entries@));
    }
    let joined = join_str(&blocks, "\n---\n");
    string_of(&joined)
}


// ---------------------------------------------------------------------
// Reading converted blocks back
// ---------------------------------------------------------------------

/// A glossary entry renders to a block that the parser reads back as a
/// `Condition` candidate with the entry's name, with the entry's text as
/// its effect (when there is any), no other field, and full confidence --
/// for an entry whose name is trimmed and whose lines hold no line
/// break, as every entry read off a page is.
pub proof fn law_condition_block_reads_back(e: ConditionEntry, id: u128)
    requires
        one_line(e.name),
        forall|i: int| 0 <= i < e.body.len() ==> !(#[trigger] e.body[i]).contains('\n'),
    ensures
        ({
            let c = block_candidate(condition_block(e), id);
            let effect = trim(join(e.body, " "@));
            &&& c.rule_type == RuleType::Condition
            &&& c.name == Some(e.name)
            &&& c.effect == (if effect.len() > 0 {
                Some(effect)
            } else {
                None
            })
            &&& c.trigger is None
            &&& c.traits.len() == 0
            &&& c.requirements.len() == 0
            &&& c.prerequisites.len() == 0
            &&& c.inferences.len() == 0
            &&& c.confidence == BASE_CONFIDENCE
        }),
{
    lemma_label_words_lowercase();
    lemma_block_words();
    lemma_label_keys_distinct();
    let effect = trim(join(e.body, " "@));
    lemma_join_lacks(e.body, " "@, '\n');
    lemma_trim_parts(join(e.body, " "@), '\n');
    let l0 = "Condition"@;
    let l1 = "Name: "@ + e.name;
    let l2 = "Effect: "@ + effect;
    lemma_labeled_one_line("Name"@, "Name: "@, e.name);
    let ls0 = seq![l0];
    let ls1 = ls0.push(l1);
    let ls2 = if effect.len() > 0 {
        ls1.push(l2)
    } else {
        ls1
    };
    assert(condition_block_lines(e) =~= ls2);
    assert(bare_type(l0) == Some(RuleType::Condition)) by {
        reveal_strlit("condition");
        reveal_strlit("action");
        reveal_strlit("reaction");
        reveal_strlit("free-action");
        reveal_strlit("feat");
        reveal_strlit("Condition");
        lemma_trim_of_trimmed(l0);
        assert(normalized_type(l0) =~= "condition"@);
    }
    assert(ls0.drop_last() =~= Seq::<Seq<char>>::empty());
    assert(scan_lines(Seq::<Seq<char>>::empty()) == no_fields());
    let f0 = scan_lines(ls0);
    assert(f0 == LabeledFields { rule_type: Some(RuleType::Condition), ..no_fields() });
    lemma_scan_push(ls0, l1);
    let f1 = scan_lines(ls1);
    assert(f1 == LabeledFields { name: Some(e.name), ..f0 });
    if effect.len() > 0 {
        lemma_labeled_one_line("Effect"@, "Effect: "@, effect);
        lemma_scan_push(ls1, l2);
        assert(scan_lines(ls2) == LabeledFields { effect: Some(effect), ..f1 });
    }
    lemma_content_lines_of_join(ls2);
}

proof fn lemma_paragraphs_acc_one_line(ls: Seq<Seq<char>>)
    requires
        forall|i: int|
            0 <= i < ls.len() ==> (#[trigger] ls[i]).len() == 0 || one_line(ls[i]),
    ensures
        forall|j: int|
            0 <= j < paragraphs_acc(ls).0.len() ==> one_line(#[trigger] paragraphs_acc(ls).0[j]),
        forall|j: int|
            0 <= j < paragraphs_acc(ls).1.len() ==> one_line(#[trigger] paragraphs_acc(ls).1[j]),
    decreases ls.len(),
{
    reveal_strlit(" ");
    if ls.len() > 0 {
        let prev = ls.drop_last();
        assert forall|i: int| 0 <= i < prev.len() implies (#[trigger] prev[i]).len() == 0
            || one_line(prev[i]) by {
            assert(prev[i] == ls[i]);
        }
        lemma_paragraphs_acc_one_line(prev);
        let a = paragraphs_acc(prev);
        let line = ls.last();
        assert(line == ls[ls.len() - 1]);
        if line.len() == 0 {
            if a.1.len() > 0 {
                assert forall|i: int| 0 <= i < a.1.len() implies is_trimmed_text(#[trigger] a.1[i]) by {
                    assert(one_line(a.1[i]));
                }
                assert forall|i: int| 0 <= i < a.1.len() implies !(#[trigger] a.1[i]).contains('\n') by {
                    assert(one_line(a.1[i]));
                }
                lemma_join_trimmed(a.1, " "@);
                assert(!" "@.contains('\n')) by {
                    assert(" "@[0] == ' ');
                }
                lemma_join_lacks(a.1, " "@, '\n');
                let b = a.0.push(join(a.1, " "@));
                assert forall|j: int| 0 <= j < b.len() implies one_line(#[trigger] b[j]) by {
                    if j < a.0.len() {
                        assert(b[j] == a.0[j]);
                    }
                }
            }
        } else {
            let b = a.1.push(line);
            assert forall|j: int| 0 <= j < b.len() implies one_line(#[trigger] b[j]) by {
                if j < a.1.len() {
                    assert(b[j] == a.1[j]);
                }
            }
        }
    }
}

/// Lines that are each blank or one trimmed line group into paragraphs
/// that are each one trimmed line.
pub proof fn lemma_paragraphs_one_line(ls: Seq<Seq<char>>)
    requires
        forall|i: int|
            0 <= i < ls.len() ==> (#[trigger] ls[i]).len() == 0 || one_line(ls[i]),
    ensures
        forall|j: int| 0 <= j < paragraphs(ls).len() ==> one_line(#[trigger] paragraphs(ls)[j]),
{
    reveal_strlit(" ");
    lemma_paragraphs_acc_one_line(ls);
    let a = paragraphs_acc(ls);
    if a.1.len() > 0 {
        assert forall|i: int| 0 <= i < a.1.len() implies is_trimmed_text(#[trigger] a.1[i]) by {
            assert(one_line(a.1[i]));
        }
        assert forall|i: int| 0 <= i < a.1.len() implies !(#[trigger] a.1[i]).contains('\n') by {
            assert(one_line(a.1[i]));
        }
        lemma_join_trimmed(a.1, " "@);
        assert(!" "@.contains('\n')) by {
            assert(" "@[0] == ' ');
        }
        lemma_join_lacks(a.1, " "@, '\n');
        let b = a.0.push(join(a.1, " "@));
        assert forall|j: int| 0 <= j < b.len() implies one_line(#[trigger] b[j]) by {
            if j < a.0.len() {
                assert(b[j] == a.0[j]);
            }
        }
    }
}


/// The labeled line `<label>: <value>` for a one-line value: itself one
/// line, read as the lowercased label and the value.
proof fn lemma_labeled_one_line(label: Seq<char>, prefix: Seq<char>, value: Seq<char>)
    requires
        prefix == label + seq![':', ' '],
        one_line(label),
        label.len() <= 32,
        !label.contains(':'),
        one_line(value),
    ensures
        one_line(prefix + value),
        label_split(prefix + value) == Some((lowercase_of(label), value)),
{
    lemma_labeled_line(label, value);
    assert(!prefix.contains('\n')) by {
        assert forall|i: int| 0 <= i < prefix.len() implies prefix[i] != '\n' by {
            if i < label.len() {
                assert(prefix[i] == label[i]);
            }
        }
    }
    lemma_prefixed_one_line(prefix, value);
}

/// The ASCII words of the labels a rendered block uses, as one-line
/// labels without a `:`.
proof fn lemma_block_words()
    ensures
        "Name: "@ == "Name"@ + seq![':', ' '],
        "Traits: "@ == "Traits"@ + seq![':', ' '],
        "Trigger: "@ == "Trigger"@ + seq![':', ' '],
        "Requirements: "@ == "Requirements"@ + seq![':', ' '],
        "Effect: "@ == "Effect"@ + seq![':', ' '],
        one_line("Name"@) && "Name"@.len() <= 32 && !"Name"@.contains(':'),
        one_line("Traits"@) && "Traits"@.len() <= 32 && !"Traits"@.contains(':'),
        one_line("Trigger"@) && "Trigger"@.len() <= 32 && !"Trigger"@.contains(':'),
        one_line("Requirements"@) && "Requirements"@.len() <= 32 && !"Requirements"@.contains(':'),
        one_line("Effect"@) && "Effect"@.len() <= 32 && !"Effect"@.contains(':'),
        one_line("Feat"@) && one_line("Condition"@),
        !" "@.contains('\n') && !", "@.contains('\n') && ", "@ == seq![',', ' '],
{
    reveal_strlit("Name: ");
    reveal_strlit("Traits: ");
    reveal_strlit("Trigger: ");
    reveal_strlit("Requirements: ");
    reveal_strlit("Effect: ");
    reveal_strlit("Name");
    reveal_strlit("Traits");
    reveal_strlit("Trigger");
    reveal_strlit("Requirements");
    reveal_strlit("Effect");
    reveal_strlit("Feat");
    reveal_strlit("Condition");
    reveal_strlit(" ");
    reveal_strlit(", ");
    assert("Name: "@ =~= "Name"@ + seq![':', ' ']);
    assert("Traits: "@ =~= "Traits"@ + seq![':', ' ']);
    assert("Trigger: "@ =~= "Trigger"@ + seq![':', ' ']);
    assert("Requirements: "@ =~= "Requirements"@ + seq![':', ' ']);
    assert("Effect: "@ =~= "Effect"@ + seq![':', ' ']);
    assert(", "@ =~= seq![',', ' ']);
    assert forall|i: int| 0 <= i < 4 implies "Name"@[i] != ':' && "Name"@[i] != '\n' by {}
    assert forall|i: int| 0 <= i < 6 implies "Traits"@[i] != ':' && "Traits"@[i] != '\n' by {}
    assert forall|i: int| 0 <= i < 7 implies "Trigger"@[i] != ':' && "Trigger"@[i] != '\n' by {}
    assert forall|i: int|
        0 <= i < 12 implies "Requirements"@[i] != ':' && "Requirements"@[i] != '\n' by {}
    assert forall|i: int| 0 <= i < 6 implies "Effect"@[i] != ':' && "Effect"@[i] != '\n' by {}
    assert forall|i: int| 0 <= i < 4 implies "Feat"@[i] != '\n' by {}
    assert forall|i: int| 0 <= i < 9 implies "Condition"@[i] != '\n' by {}
    assert(" "@[0] == ' ');
    assert(", "@[0] == ',' && ", "@[1] == ' ');
}

/// What the lines of a rendered feat block say, each line being one
/// trimmed line.
proof fn lemma_feat_block_scan(e: FeatEntry)
    requires
        lowercase_of("Feat"@) == "feat"@,
        lowercase_of("Name"@) == "name"@,
        lowercase_of("Traits"@) == "traits"@,
        lowercase_of("Effect"@) == "effect"@,
        one_line(e.name),
        forall|i: int| 0 <= i < e.traits.len() ==> one_line(#[trigger] e.traits[i]),
        forall|i: int| 0 <= i < e.traits.len() ==> !(#[trigger] e.traits[i]).contains(','),
        forall|i: int|
            0 <= i < e.body.len() ==> (#[trigger] e.body[i]).len() == 0 || one_line(e.body[i]),
    ensures
        forall|i: int|
            0 <= i < feat_block_lines(e).len() ==> one_line(#[trigger] feat_block_lines(e)[i]),
        scan_lines(feat_block_lines(e)) == (LabeledFields {
            rule_type: Some(RuleType::Feat),
            name: Some(e.name),
            traits: e.traits,
            effect: if paragraphs(e.body).len() > 0 {
                Some(join(paragraphs(e.body), " "@))
            } else {
                None
            },
            ..no_fields()
        }),
{
    lemma_block_words();
    lemma_label_keys_distinct();
    let ps = paragraphs(e.body);
    let eff = join(ps, " "@);
    let tr = join(e.traits, ", "@);
    lemma_paragraphs_one_line(e.body);
    let l0 = "Feat"@;
    let l1 = "Name: "@ + e.name;
    let lt = "Traits: "@ + tr;
    let le = "Effect: "@ + eff;
    lemma_labeled_one_line("Name"@, "Name: "@, e.name);
    let ls0 = seq![l0];
    let ls1 = ls0.push(l1);
    let ls2 = if e.traits.len() > 0 {
        ls1.push(lt)
    } else {
        ls1
    };
    let ls3 = if ps.len() > 0 {
        ls2.push(le)
    } else {
        ls2
    };
    assert(feat_block_lines(e) =~= ls3);
    assert(bare_type(l0) == Some(RuleType::Feat)) by {
        reveal_strlit("feat");
        reveal_strlit("action");
        reveal_strlit("reaction");
        reveal_strlit("free-action");
        reveal_strlit("Feat");
        lemma_trim_of_trimmed(l0);
        assert(normalized_type(l0) =~= "feat"@);
    }
    assert(ls0.drop_last() =~= Seq::<Seq<char>>::empty());
    assert(scan_lines(Seq::<Seq<char>>::empty()) == no_fields());
    let f0 = scan_lines(ls0);
    assert(f0 == LabeledFields { rule_type: Some(RuleType::Feat), ..no_fields() });
    lemma_scan_push(ls0, l1);
    let f1 = scan_lines(ls1);
    assert(f1 == LabeledFields { name: Some(e.name), ..f0 });
    let f2 = scan_lines(ls2);
    if e.traits.len() > 0 {
        lemma_join_trimmed(e.traits, ", "@);
        lemma_join_lacks(e.traits, ", "@, '\n');
        lemma_labeled_one_line("Traits"@, "Traits: "@, tr);
        lemma_items_of_join(e.traits, ", "@, ',');
        lemma_scan_push(ls1, lt);
        assert(f2 == LabeledFields { traits: e.traits, ..f1 });
    } else {
        assert(e.traits =~= Seq::<Seq<char>>::empty());
    }
    if ps.len() > 0 {
        lemma_join_trimmed(ps, " "@);
        lemma_join_lacks(ps, " "@, '\n');
        lemma_labeled_one_line("Effect"@, "Effect: "@, eff);
        lemma_scan_push(ls2, le);
        assert(scan_lines(ls3) == LabeledFields { effect: Some(eff), ..f2 });
    }
}

/// A feat entry renders to a block that the parser reads back as a `Feat`
/// candidate with the entry's name and traits, with its paragraphs as the
/// effect (when there are any), no other field, and full confidence --
/// for an entry whose name and traits are single trimmed lines, whose
/// traits hold no comma, and whose body lines are blank or trimmed, as
/// read off a page.
pub proof fn law_feat_block_reads_back(e: FeatEntry, id: u128)
    requires
        one_line(e.name),
        forall|i: int| 0 <= i < e.traits.len() ==> one_line(#[trigger] e.traits[i]),
        forall|i: int| 0 <= i < e.traits.len() ==> !(#[trigger] e.traits[i]).contains(','),
        forall|i: int|
            0 <= i < e.body.len() ==> (#[trigger] e.body[i]).len() == 0 || one_line(e.body[i]),
    ensures
        ({
            let c = block_candidate(feat_block(e), id);
            let ps = paragraphs(e.body);
            &&& c.rule_type == RuleType::Feat
            &&& c.name == Some(e.name)
            &&& c.traits == e.traits
            &&& c.effect == (if ps.len() > 0 {
                Some(join(ps, " "@))
            } else {
                None
            })
            &&& c.trigger is None
            &&& c.requirements.len() == 0
            &&& c.prerequisites.len() == 0
            &&& c.inferences.len() == 0
            &&& c.confidence == BASE_CONFIDENCE
        }),
{
    lemma_label_words_lowercase();
    lemma_feat_block_scan(e);
    lemma_content_lines_of_join(feat_block_lines(e));
}

/// What a book label splits off a one-line paragraph is one line, and so
/// is what is left of it.
proof fn lemma_book_label_one_line(p: Seq<char>, label: Seq<char>)
    requires
        one_line(p),
    ensures
        book_label(p, label) matches Some((v, o)) ==> one_line(v) && (o matches Some(x)
            ==> one_line(x)),
{
    reveal_strlit(" ");
    reveal_strlit(". ");
    match strip_prefix(p, label) {
        Some(after) => {
            assert(after == p.skip(label.len() as int));
            match strip_prefix(after, " "@) {
                Some(rest) => {
                    assert(rest =~= p.skip(label.len() as int + 1));
                    assert(after.take(1)[0] == ' ');
                    assert(rest.len() > 0) by {
                        if rest.len() == 0 {
                            assert(p.last() == after[0]);
                        }
                    }
                    assert(rest.last() == p.last());
                    lemma_subrange_lacks(p, label.len() as int + 1, p.len() as int, '\n');
                    assert(p.subrange(label.len() as int + 1, p.len() as int) =~= rest);
                    match find(rest, ". "@) {
                        Some(i) => {
                            lemma_find_from(rest, ". "@, 0);
                            assert(rest.subrange(i, i + 2)[0] == rest[i]);
                            let head = rest.take(i + 1);
                            assert(head.last() == '.');
                            lemma_trim_nonempty(head);
                            lemma_subrange_lacks(rest, 0, i + 1, '\n');
                            assert(rest.subrange(0, i + 1) =~= head);
                            lemma_trimmed_part_one_line(head);
                            let tail = rest.skip(i + 1);
                            lemma_subrange_lacks(rest, i + 1, rest.len() as int, '\n');
                            assert(rest.subrange(i + 1, rest.len() as int) =~= tail);
                            if trim(tail).len() > 0 {
                                lemma_trimmed_part_one_line(tail);
                            }
                        },
                        None => {
                            lemma_trim_nonempty(rest);
                            lemma_trimmed_part_one_line(rest);
                        },
                    }
                },
                None => {},
            }
        },
        None => {},
    }
}


proof fn lemma_read_paragraphs_one_line(ps: Seq<Seq<char>>)
    requires
        forall|i: int| 0 <= i < ps.len() ==> one_line(#[trigger] ps[i]),
    ensures
        read_paragraphs(ps).trigger matches Some(t) ==> one_line(t),
        read_paragraphs(ps).requirements matches Some(r) ==> one_line(r),
        forall|j: int|
            0 <= j < read_paragraphs(ps).effect_parts.len() ==> one_line(
                #[trigger] read_paragraphs(ps).effect_parts[j],
            ),
    decreases ps.len(),
{
    if ps.len() > 0 {
        let prev = ps.drop_last();
        assert forall|i: int| 0 <= i < prev.len() implies one_line(#[trigger] prev[i]) by {
            assert(prev[i] == ps[i]);
        }
        lemma_read_paragraphs_one_line(prev);
        let f = read_paragraphs(prev);
        let p = ps.last();
        assert(one_line(p)) by {
            assert(p == ps[ps.len() - 1]);
        }
        lemma_book_label_one_line(p, "Requirements"@);
        lemma_book_label_one_line(p, "Trigger"@);
        let g = read_paragraphs(ps);
        assert forall|j: int| 0 <= j < g.effect_parts.len() implies one_line(
            #[trigger] g.effect_parts[j],
        ) by {
            if j < f.effect_parts.len() {
                assert(g.effect_parts[j] == f.effect_parts[j]);
            }
        }
    }
}

/// The rule type an action entry's label names.
pub open spec fn action_label_type(label: Seq<char>) -> RuleType {
    if label == "Free Action"@ {
        RuleType::FreeAction
    } else if label == "Reaction"@ {
        RuleType::Reaction
    } else {
        RuleType::Action
    }
}

proof fn lemma_action_label(label: Seq<char>)
    requires
        label == "Action"@ || label == "Free Action"@ || label == "Reaction"@,
        lowercase_of("Action"@) == "action"@,
        lowercase_of("Free Action"@) == "free action"@,
        lowercase_of("Reaction"@) == "reaction"@,
    ensures
        one_line(label),
        bare_type(label) == Some(action_label_type(label)),
{
    reveal_strlit("Action");
    reveal_strlit("Free Action");
    reveal_strlit("Reaction");
    reveal_strlit("action");
    reveal_strlit("free action");
    reveal_strlit("free-action");
    reveal_strlit("reaction");
    reveal_strlit("feat");
    reveal_strlit("condition");
    assert("Action"@.len() != "Free Action"@.len());
    assert("Action"@.len() != "Reaction"@.len());
    assert("Free Action"@.len() != "Reaction"@.len());
    assert forall|i: int| 0 <= i < label.len() implies label[i] != '\n' by {}
    lemma_trim_of_trimmed(label);
    if label == "Action"@ {
        assert(normalized_type(label) =~= "action"@);
    } else if label == "Free Action"@ {
        assert(normalized_type(label) =~= "free-action"@);
    } else {
        assert(normalized_type(label) =~= "reaction"@);
    }
}

/// What the lines of a rendered action block say, each line being one
/// trimmed line.
proof fn lemma_action_block_scan(e: ActionEntry)
    requires
        e.label == "Action"@ || e.label == "Free Action"@ || e.label == "Reaction"@,
        lowercase_of("Action"@) == "action"@,
        lowercase_of("Free Action"@) == "free action"@,
        lowercase_of("Reaction"@) == "reaction"@,
        lowercase_of("Name"@) == "name"@,
        lowercase_of("Traits"@) == "traits"@,
        lowercase_of("Trigger"@) == "trigger"@,
        lowercase_of("Requirements"@) == "requirements"@,
        lowercase_of("Effect"@) == "effect"@,
        one_line(e.name),
        forall|i: int|
            0 <= i < e.body.len() ==> (#[trigger] e.body[i]).len() == 0 || one_line(e.body[i]),
        forall|i: int|
            0 <= i < read_paragraphs(paragraphs(e.body)).traits.len() ==> one_line(
                #[trigger] read_paragraphs(paragraphs(e.body)).traits[i],
            ),
    ensures
        forall|i: int|
            0 <= i < action_block_lines(e).len() ==> one_line(#[trigger] action_block_lines(e)[i]),
        ({
            let f = read_paragraphs(paragraphs(e.body));
            scan_lines(action_block_lines(e)) == (LabeledFields {
                rule_type: Some(action_label_type(e.label)),
                name: Some(e.name),
                traits: list_items(join(f.traits, ", "@)),
                trigger: f.trigger,
                requirements: match f.requirements {
                    Some(r) => list_items(r),
                    None => seq![],
                },
                effect: if f.effect_parts.len() > 0 {
                    Some(join(f.effect_parts, " "@))
                } else {
                    None
                },
                ..no_fields()
            })
        }),
{
    lemma_block_words();
    lemma_label_keys_distinct();
    lemma_action_label(e.label);
    lemma_paragraphs_one_line(e.body);
    let f = read_paragraphs(paragraphs(e.body));
    lemma_read_paragraphs_one_line(paragraphs(e.body));
    let tr = join(f.traits, ", "@);
    let eff = join(f.effect_parts, " "@);
    let l1 = "Name: "@ + e.name;
    let lt = "Traits: "@ + tr;
    let lg = "Trigger: "@ + f.trigger->Some_0;
    let lq = "Requirements: "@ + f.requirements->Some_0;
    let le = "Effect: "@ + eff;
    lemma_labeled_one_line("Name"@, "Name: "@, e.name);
    let ls0 = seq![e.label];
    let ls1 = ls0.push(l1);
    let ls2 = if f.traits.len() > 0 {
        ls1.push(lt)
    } else {
        ls1
    };
    let ls3 = if f.trigger is Some {
        ls2.push(lg)
    } else {
        ls2
    };
    let ls4 = if f.requirements is Some {
        ls3.push(lq)
    } else {
        ls3
    };
    let ls5 = if f.effect_parts.len() > 0 {
        ls4.push(le)
    } else {
        ls4
    };
    assert(action_block_lines(e) =~= ls5);
    assert(ls0.drop_last() =~= Seq::<Seq<char>>::empty());
    assert(scan_lines(Seq::<Seq<char>>::empty()) == no_fields());
    let f0 = scan_lines(ls0);
    assert(f0 == LabeledFields { rule_type: Some(action_label_type(e.label)), ..no_fields() });
    lemma_scan_push(ls0, l1);
    let f1 = scan_lines(ls1);
    assert(f1 == LabeledFields { name: Some(e.name), ..f0 });
    let f2 = scan_lines(ls2);
    if f.traits.len() > 0 {
        lemma_join_trimmed(f.traits, ", "@);
        assert forall|i: int| 0 <= i < f.traits.len() implies !(#[trigger] f.traits[i]).contains(
            '\n',
        ) by {
            assert(one_line(f.traits[i]));
        }
        lemma_join_lacks(f.traits, ", "@, '\n');
        lemma_labeled_one_line("Traits"@, "Traits: "@, tr);
        lemma_scan_push(ls1, lt);
        assert(f2 == LabeledFields { traits: list_items(tr), ..f1 });
    } else {
        lemma_items_of_join(f.traits, ", "@, ',');
        assert(list_items(tr) == f.traits);
    }
    let f3 = scan_lines(ls3);
    if f.trigger is Some {
        lemma_labeled_one_line("Trigger"@, "Trigger: "@, f.trigger->Some_0);
        lemma_scan_push(ls2, lg);
        assert(f3 == LabeledFields { trigger: f.trigger, ..f2 });
    }
    let f4 = scan_lines(ls4);
    if f.requirements is Some {
        lemma_labeled_one_line("Requirements"@, "Requirements: "@, f.requirements->Some_0);
        lemma_scan_push(ls3, lq);
        assert(f4 == LabeledFields { requirements: list_items(f.requirements->Some_0), ..f3 });
    }
    if f.effect_parts.len() > 0 {
        lemma_join_trimmed(f.effect_parts, " "@);
        assert forall|i: int| 0 <= i < f.effect_parts.len() implies !(
        #[trigger] f.effect_parts[i]).contains('\n') by {
            assert(one_line(f.effect_parts[i]));
        }
        lemma_join_lacks(f.effect_parts, " "@, '\n');
        lemma_labeled_one_line("Effect"@, "Effect: "@, eff);
        lemma_scan_push(ls4, le);
        assert(scan_lines(ls5) == LabeledFields { effect: Some(eff), ..f4 });
    }
    assert(f4.rule_type == Some(action_label_type(e.label)));
    assert(f4.name == Some(e.name));
    assert(f4.traits == list_items(tr));
    assert(f4.trigger == f.trigger);
    assert(f4.requirements == match f.requirements {
        Some(r) => list_items(r),
        None => seq![],
    });
    assert(f4.effect is None);
    assert(f4.untagged == 0);
}

/// An action entry renders to a block that the parser reads back as a
/// candidate of the type its label names, with the entry's name, the
/// trait, trigger and requirements the book's paragraphs label (the
/// requirements read as a comma-separated list), the rest of the text as
/// the effect, no other field, and full confidence -- for an entry with a
/// label that a heading gives, a name that is one trimmed line, body
/// lines that are blank or trimmed, and a trait that lowercases to one
/// trimmed line.
pub proof fn law_action_block_reads_back(e: ActionEntry, id: u128)
    requires
        e.label == "Action"@ || e.label == "Free Action"@ || e.label == "Reaction"@,
        one_line(e.name),
        forall|i: int|
            0 <= i < e.body.len() ==> (#[trigger] e.body[i]).len() == 0 || one_line(e.body[i]),
        forall|i: int|
            0 <= i < read_paragraphs(paragraphs(e.body)).traits.len() ==> one_line(
                #[trigger] read_paragraphs(paragraphs(e.body)).traits[i],
            ),
    ensures
        ({
            let c = block_candidate(action_block(e), id);
            let f = read_paragraphs(paragraphs(e.body));
            &&& c.rule_type == action_label_type(e.label)
            &&& c.name == Some(e.name)
            &&& c.traits == list_items(join(f.traits, ", "@))
            &&& c.trigger == f.trigger
            &&& c.requirements == match f.requirements {
                Some(r) => list_items(r),
                None => seq![],
            }
            &&& c.effect == (if f.effect_parts.len() > 0 {
                Some(join(f.effect_parts, " "@))
            } else {
                None
            })
            &&& c.prerequisites.len() == 0
            &&& c.inferences.len() == 0
            &&& c.confidence == BASE_CONFIDENCE
        }),
{
    lemma_label_words_lowercase();
    lemma_action_block_scan(e);
    lemma_content_lines_of_join(action_block_lines(e));
    reveal_strlit("Action");
    reveal_strlit("Free Action");
    reveal_strlit("Reaction");
}


/// A glossary entry as every entry read off a page is: its name and its
/// body lines each one trimmed line.
pub open spec fn well_read_condition(e: ConditionEntry) -> bool {
    &&& one_line(e.name)
    &&& forall|j: int|
        0 <= j < e.body.len() ==> one_line(#[trigger] e.body[j])
}

proof fn lemma_condition_acc_well_read(ls: Seq<Seq<char>>)
    requires
        forall|i: int|
            0 <= i < ls.len() ==> !(#[trigger] ls[i]).contains('\n'),
    ensures
        forall|i: int|
            0 <= i < condition_acc(ls).0.len() ==> well_read_condition(
                #[trigger] condition_acc(ls).0[i],
            ),
        condition_acc(ls).1 matches Some(e) ==> well_read_condition(e),
    decreases ls.len(),
{
    if ls.len() > 0 {
        let prev = ls.drop_last();
        assert forall|i: int| 0 <= i < prev.len() implies !(#[trigger] prev[i]).contains('\n') by {
            assert(prev[i] == ls[i]);
        }
        lemma_condition_acc_well_read(prev);
        let a = condition_acc(prev);
        let raw = ls.last();
        assert(raw == ls[ls.len() - 1]);
        let line = trim(raw);
        lemma_trim_parts(raw, '\n');
        if a.2 && line.len() > 0 && !bare_page_number(line) {
            if condition_heading_line(line) {
                let d = match a.1 {
                    Some(e) => a.0.push(e),
                    None => a.0,
                };
                assert forall|i: int| 0 <= i < d.len() implies well_read_condition(#[trigger] d[i]) by {
                    if i < a.0.len() {
                        assert(d[i] == a.0[i]);
                    }
                }
                assert(well_read_condition(ConditionEntry { name: line, body: seq![] }));
            } else {
                match a.1 {
                    Some(e) => {
                        let b = e.body.push(line);
                        assert forall|j: int| 0 <= j < b.len() implies one_line(#[trigger] b[j]) by {
                            if j < e.body.len() {
                                assert(b[j] == e.body[j]);
                            }
                        }
                        assert(well_read_condition(ConditionEntry { body: b, ..e }));
                    },
                    None => {},
                }
            }
        }
    }
}

/// Every entry read off a page is well read.
pub proof fn lemma_condition_entries_well_read(text: Seq<char>)
    requires
    ensures
        forall|i: int|
            0 <= i < condition_entries(text).len() ==> well_read_condition(
                #[trigger] condition_entries(text)[i],
            ),
{
    lemma_lines_lack_newline(text);
    let ls = lines(text);
    assert forall|i: int| 0 <= i < ls.len() implies !(#[trigger] ls[i]).contains('\n') by {}
    lemma_condition_acc_well_read(ls);
    let a = condition_acc(ls);
    match a.1 {
        Some(e) => {
            let d = a.0.push(e);
            assert forall|i: int| 0 <= i < d.len() implies well_read_condition(#[trigger] d[i]) by {
                if i < a.0.len() {
                    assert(d[i] == a.0[i]);
                }
            }
        },
        None => {},
    }
}

/// The block a well-read entry renders to is trimmed and has no
/// separator line.
proof fn lemma_condition_block_framed(e: ConditionEntry)
    requires
        well_read_condition(e),
    ensures
        is_trimmed_text(condition_block(e)),
        has_no_separator_line(condition_block(e)),
{
    lemma_block_words();
    lemma_block_initials();
    let effect = trim(join(e.body, " "@));
    assert forall|i: int| 0 <= i < e.body.len() implies !(#[trigger] e.body[i]).contains('\n') by {
        assert(one_line(e.body[i]));
    }
    lemma_join_lacks(e.body, " "@, '\n');
    lemma_trim_parts(join(e.body, " "@), '\n');
    let ls = condition_block_lines(e);
    lemma_labeled_one_line("Name"@, "Name: "@, e.name);
    if effect.len() > 0 {
        lemma_labeled_one_line("Effect"@, "Effect: "@, effect);
    }
    assert forall|i: int| 0 <= i < ls.len() implies one_line(#[trigger] ls[i]) && ls[i][0] != '-' by {}
    assert forall|i: int| 0 <= i < ls.len() implies is_trimmed_text(#[trigger] ls[i]) by {
        assert(one_line(ls[i]));
    }
    lemma_join_trimmed(ls, "\n"@);
    lemma_block_lines_no_separator(ls);
}

/// The first characters of the words and labels a rendered block starts
/// its lines with, none of them `-`.
proof fn lemma_block_initials()
    ensures
        "Condition"@.len() > 0 && "Condition"@[0] == 'C',
        "Feat"@.len() > 0 && "Feat"@[0] == 'F',
        "Name: "@.len() > 0 && "Name: "@[0] == 'N',
        "Traits: "@.len() > 0 && "Traits: "@[0] == 'T',
        "Trigger: "@.len() > 0 && "Trigger: "@[0] == 'T',
        "Requirements: "@.len() > 0 && "Requirements: "@[0] == 'R',
        "Effect: "@.len() > 0 && "Effect: "@[0] == 'E',
{
    reveal_strlit("Condition");
    reveal_strlit("Feat");
    reveal_strlit("Name: ");
    reveal_strlit("Traits: ");
    reveal_strlit("Trigger: ");
    reveal_strlit("Requirements: ");
    reveal_strlit("Effect: ");
}


/// The candidate `c` reads back the glossary entry `e`: a `Condition`
/// with its name, its text as the effect, and full confidence.
pub open spec fn reads_back_condition(c: CandidateView, e: ConditionEntry) -> bool {
    let effect = trim(join(e.body, " "@));
    &&& c.rule_type == RuleType::Condition
    &&& c.name == Some(e.name)
    &&& c.effect == (if effect.len() > 0 {
        Some(effect)
    } else {
        None
    })
    &&& c.confidence == BASE_CONFIDENCE
}

/// A glossary page converts into exactly one block per entry, in order,
/// and each block reads back, under the parser, as a `Condition`
/// candidate with the entry's name and text at full confidence.
pub proof fn law_converted_conditions_read_back(text: Seq<char>)
    ensures
        blocks(converted_conditions(text)) == condition_entries(text).map_values(
            |e: ConditionEntry| condition_block(e),
        ),
        forall|i: int, id: u128|
            0 <= i < condition_entries(text).len() ==> reads_back_condition(
                #[trigger] block_candidate(condition_block(condition_entries(text)[i]), id),
                condition_entries(text)[i],
            ),
{
    lemma_label_words_lowercase();
    let es = condition_entries(text);
    let bs = es.map_values(|e: ConditionEntry| condition_block(e));
    lemma_condition_entries_well_read(text);
    assert forall|i: int| 0 <= i < bs.len() implies is_trimmed_text(#[trigger] bs[i])
        && has_no_separator_line(bs[i]) by {
        lemma_condition_block_framed(es[i]);
    }
    lemma_blocks_of_join(bs);
    assert forall|i: int, id: u128| 0 <= i < es.len() implies reads_back_condition(
        #[trigger] block_candidate(condition_block(es[i]), id),
        es[i],
    ) by {
        let e = es[i];
        assert(well_read_condition(e));
        assert forall|j: int| 0 <= j < e.body.len() implies !(#[trigger] e.body[j]).contains('\n') by {
            assert(one_line(e.body[j]));
        }
        law_condition_block_reads_back(e, id);
    }
}





/// Every body line of a feat entry is one trimmed line.
pub open spec fn feat_body_well_read(e: FeatEntry) -> bool {
    forall|j: int|
        0 <= j < e.body.len() ==> one_line(#[trigger] e.body[j])
}

/// A feat entry's name and traits are each one trimmed line, and its
/// traits hold no comma.
pub open spec fn feat_heading_well_read(e: FeatEntry) -> bool {
    &&& one_line(e.name)
    &&& forall|i: int|
        0 <= i < e.traits.len() ==> one_line(#[trigger] e.traits[i]) && !e.traits[i].contains(',')
}

proof fn lemma_feat_entries_from_bodies(
    ls: Seq<Seq<char>>,
    i: int,
    done: Seq<FeatEntry>,
    cur: Option<FeatEntry>,
)
    requires
        forall|k: int|
            0 <= k < ls.len() ==> (#[trigger] ls[k]).len() == 0 || one_line(ls[k]),
        forall|k: int| 0 <= k < done.len() ==> feat_body_well_read(#[trigger] done[k]),
        cur matches Some(e) ==> feat_body_well_read(e),
    ensures
        forall|k: int|
            0 <= k < feat_entries_from(ls, i, done, cur).len() ==> feat_body_well_read(
                #[trigger] feat_entries_from(ls, i, done, cur)[k],
            ),
    decreases ls.len() - i,
{
    let w = with_feat(done, cur);
    assert forall|k: int| 0 <= k < w.len() implies feat_body_well_read(#[trigger] w[k]) by {
        if k < done.len() {
            assert(w[k] == done[k]);
        }
    }
    if i < 0 || i >= ls.len() {
        assert(feat_entries_from(ls, i, done, cur) == w);
    } else if ls[i].len() == 0 {
        lemma_feat_entries_from_bodies(ls, i + 1, done, cur);
        assert(feat_entries_from(ls, i, done, cur) == feat_entries_from(ls, i + 1, done, cur));
    } else if shouty(ls[i]) && !is_feat_marker(ls[i]) && feat_heading(ls, i) is Some && i
        < feat_heading(ls, i).unwrap().2 <= ls.len() {
        let h = feat_heading(ls, i).unwrap();
        let e = FeatEntry { name: h.0, traits: h.1, body: seq![] };
        assert(feat_body_well_read(e));
        lemma_feat_entries_from_bodies(ls, h.2, w, Some(e));
        assert(feat_entries_from(ls, i, done, cur) == feat_entries_from(ls, h.2, w, Some(e)));
    } else {
        match cur {
            Some(e) => {
                let b = e.body.push(ls[i]);
                assert forall|j: int| 0 <= j < b.len() implies one_line(#[trigger] b[j]) by {
                    if j < e.body.len() {
                        assert(b[j] == e.body[j]);
                    }
                }
                assert(feat_body_well_read(FeatEntry { body: b, ..e }));
                lemma_feat_entries_from_bodies(ls, i + 1, done, Some(FeatEntry { body: b, ..e }));
                assert(feat_entries_from(ls, i, done, cur) == feat_entries_from(
                    ls,
                    i + 1,
                    done,
                    Some(FeatEntry { body: b, ..e }),
                ));
            },
            None => {
                lemma_feat_entries_from_bodies(ls, i + 1, done, None);
                assert(feat_entries_from(ls, i, done, cur) == feat_entries_from(
                    ls,
                    i + 1,
                    done,
                    None,
                ));
            },
        }
    }
}

/// The trimmed lines of a page are each blank or one trimmed line.
proof fn lemma_trimmed_lines_well_read(text: Seq<char>)
    ensures
        forall|k: int|
            0 <= k < trimmed_lines(text).len() ==> (#[trigger] trimmed_lines(text)[k]).len() == 0
                || one_line(trimmed_lines(text)[k]),
{
    lemma_lines_lack_newline(text);
    let ls = trimmed_lines(text);
    assert forall|k: int| 0 <= k < ls.len() implies (#[trigger] ls[k]).len() == 0 || one_line(
        ls[k],
    ) by {
        let raw = lines(text)[k];
        assert(ls[k] == trim(raw));
        lemma_trim_parts(raw, '\n');
    }
}

/// The block a well-read feat entry renders to is trimmed and has no
/// separator line.
proof fn lemma_feat_block_framed(e: FeatEntry)
    requires
        feat_heading_well_read(e),
        feat_body_well_read(e),
    ensures
        is_trimmed_text(feat_block(e)),
        has_no_separator_line(feat_block(e)),
{
    lemma_block_words();
    lemma_block_initials();
    let ps = paragraphs(e.body);
    let eff = join(ps, " "@);
    let tr = join(e.traits, ", "@);
    assert forall|j: int| 0 <= j < e.body.len() implies (#[trigger] e.body[j]).len() == 0
        || one_line(e.body[j]) by {}
    lemma_paragraphs_one_line(e.body);
    assert forall|j: int| 0 <= j < e.traits.len() implies one_line(#[trigger] e.traits[j]) by {}
    let ls = feat_block_lines(e);
    lemma_labeled_one_line("Name"@, "Name: "@, e.name);
    if e.traits.len() > 0 {
        lemma_join_trimmed(e.traits, ", "@);
        lemma_join_lacks(e.traits, ", "@, '\n');
        lemma_labeled_one_line("Traits"@, "Traits: "@, tr);
    }
    if ps.len() > 0 {
        lemma_join_trimmed(ps, " "@);
        lemma_join_lacks(ps, " "@, '\n');
        lemma_labeled_one_line("Effect"@, "Effect: "@, eff);
    }
    assert(ls =~= seq!["Feat"@, "Name: "@ + e.name] + (if e.traits.len() > 0 {
        seq!["Traits: "@ + tr]
    } else {
        seq![]
    }) + (if ps.len() > 0 {
        seq!["Effect: "@ + eff]
    } else {
        seq![]
    }));
    assert forall|i: int| 0 <= i < ls.len() implies one_line(#[trigger] ls[i]) && ls[i][0] != '-' by {}
    assert forall|i: int| 0 <= i < ls.len() implies is_trimmed_text(#[trigger] ls[i]) by {
        assert(one_line(ls[i]));
    }
    lemma_join_trimmed(ls, "\n"@);
    lemma_block_lines_no_separator(ls);
}

/// The candidate `c` reads back the feat entry `e`: a `Feat` with its
/// name and traits, its paragraphs as the effect, and full confidence.
pub open spec fn reads_back_feat(c: CandidateView, e: FeatEntry) -> bool {
    let ps = paragraphs(e.body);
    &&& c.rule_type == RuleType::Feat
    &&& c.name == Some(e.name)
    &&& c.traits == e.traits
    &&& c.effect == (if ps.len() > 0 {
        Some(join(ps, " "@))
    } else {
        None
    })
    &&& c.confidence == BASE_CONFIDENCE
}

/// A feat page whose entries' names and traits came out as single
/// trimmed lines (the traits without a comma) converts into exactly one
/// block per entry, in order, and each block reads back, under the
/// parser, as a `Feat` candidate with the entry's name and traits at full
/// confidence.
pub proof fn law_converted_feats_read_back(text: Seq<char>)
    requires
        forall|i: int|
            0 <= i < feat_entries(text).len() ==> feat_heading_well_read(
                #[trigger] feat_entries(text)[i],
            ),
    ensures
        blocks(converted_feats(text)) == feat_entries(text).map_values(
            |e: FeatEntry| feat_block(e),
        ),
        forall|i: int, id: u128|
            0 <= i < feat_entries(text).len() ==> reads_back_feat(
                #[trigger] block_candidate(feat_block(feat_entries(text)[i]), id),
                feat_entries(text)[i],
            ),
{
    lemma_label_words_lowercase();
    let es = feat_entries(text);
    let bs = es.map_values(|e: FeatEntry| feat_block(e));
    lemma_trimmed_lines_well_read(text);
    lemma_feat_entries_from_bodies(trimmed_lines(text), 0, seq![], None);
    assert forall|i: int| 0 <= i < bs.len() implies is_trimmed_text(#[trigger] bs[i])
        && has_no_separator_line(bs[i]) by {
        lemma_feat_block_framed(es[i]);
    }
    lemma_blocks_of_join(bs);
    assert forall|i: int, id: u128| 0 <= i < es.len() implies reads_back_feat(
        #[trigger] block_candidate(feat_block(es[i]), id),
        es[i],
    ) by {
        let e = es[i];
        assert(feat_heading_well_read(e));
        assert(feat_body_well_read(e));
        assert forall|j: int| 0 <= j < e.body.len() implies (#[trigger] e.body[j]).len() == 0
            || one_line(e.body[j]) by {}
        law_feat_block_reads_back(e, id);
    }
}




/// Every body line of an action entry is blank or one trimmed line; its
/// label is one a heading gives.
pub open spec fn action_body_well_read(e: ActionEntry) -> bool {
    &&& e.label == "Action"@ || e.label == "Free Action"@ || e.label == "Reaction"@
    &&& forall|j: int|
        0 <= j < e.body.len() ==> ((#[trigger] e.body[j]).len() == 0 || one_line(e.body[j]))
}

/// An action entry's name, and the trait its paragraphs give once
/// lowercased, are each one trimmed line.
pub open spec fn action_heading_well_read(e: ActionEntry) -> bool {
    let f = read_paragraphs(paragraphs(e.body));
    &&& one_line(e.name)
    &&& forall|i: int|
        0 <= i < f.traits.len() ==> one_line(#[trigger] f.traits[i])
}

proof fn lemma_action_heading_label(line: Seq<char>)
    ensures
        action_heading(line) matches Some((n, l)) ==> l == "Action"@ || l == "Free Action"@ || l
            == "Reaction"@,
{
}

proof fn lemma_action_entries_acc_bodies(ls: Seq<Seq<char>>)
    requires
        forall|i: int|
            0 <= i < ls.len() ==> !(#[trigger] ls[i]).contains('\n'),
    ensures
        forall|k: int|
            0 <= k < action_entries_acc(ls).0.len() ==> action_body_well_read(
                #[trigger] action_entries_acc(ls).0[k],
            ),
        action_entries_acc(ls).1 matches Some(e) ==> action_body_well_read(e),
    decreases ls.len(),
{
    if ls.len() > 0 {
        let prev = ls.drop_last();
        assert forall|i: int| 0 <= i < prev.len() implies !(#[trigger] prev[i]).contains('\n') by {
            assert(prev[i] == ls[i]);
        }
        lemma_action_entries_acc_bodies(prev);
        let a = action_entries_acc(prev);
        let raw = ls.last();
        assert(raw == ls[ls.len() - 1]);
        let line = trim(raw);
        lemma_trim_parts(raw, '\n');
        lemma_action_heading_label(line);
        match action_heading(line) {
            Some((name, label)) => {
                let d = match a.1 {
                    Some(e) => a.0.push(e),
                    None => a.0,
                };
                assert forall|k: int| 0 <= k < d.len() implies action_body_well_read(#[trigger] d[k]) by {
                    if k < a.0.len() {
                        assert(d[k] == a.0[k]);
                    }
                }
                assert(action_body_well_read(ActionEntry { name, label, body: seq![] }));
            },
            None => {
                match a.1 {
                    Some(e) => {
                        let b = e.body.push(line);
                        assert forall|j: int| 0 <= j < b.len() implies ((#[trigger] b[j]).len()
                            == 0 || one_line(b[j])) by {
                            if j < e.body.len() {
                                assert(b[j] == e.body[j]);
                            }
                        }
                        assert(action_body_well_read(ActionEntry { body: b, ..e }));
                    },
                    None => {},
                }
            },
        }
    }
}

/// Every action entry read off a page has a heading's label and
/// well-read body lines.
proof fn lemma_action_entries_bodies(text: Seq<char>)
    requires
    ensures
        forall|k: int|
            0 <= k < action_entries(text).len() ==> action_body_well_read(
                #[trigger] action_entries(text)[k],
            ),
{
    lemma_lines_lack_newline(text);
    let ls = lines(text);
    assert forall|i: int| 0 <= i < ls.len() implies !(#[trigger] ls[i]).contains('\n') by {}
    lemma_action_entries_acc_bodies(ls);
    let a = action_entries_acc(ls);
    match a.1 {
        Some(e) => {
            let d = a.0.push(e);
            assert forall|k: int| 0 <= k < d.len() implies action_body_well_read(#[trigger] d[k]) by {
                if k < a.0.len() {
                    assert(d[k] == a.0[k]);
                }
            }
        },
        None => {},
    }
}

/// The block a well-read action entry renders to is trimmed and has no
/// separator line.
proof fn lemma_action_block_framed(e: ActionEntry)
    requires
        action_heading_well_read(e),
        action_body_well_read(e),
    ensures
        is_trimmed_text(action_block(e)),
        has_no_separator_line(action_block(e)),
{
    lemma_block_words();
    lemma_block_initials();
    let ps = paragraphs(e.body);
    assert forall|j: int| 0 <= j < e.body.len() implies (#[trigger] e.body[j]).len() == 0
        || one_line(e.body[j]) by {}
    lemma_paragraphs_one_line(e.body);
    lemma_read_paragraphs_one_line(ps);
    let f = read_paragraphs(ps);
    let tr = join(f.traits, ", "@);
    let eff = join(f.effect_parts, " "@);
    assert forall|j: int| 0 <= j < f.traits.len() implies one_line(#[trigger] f.traits[j]) by {}
    let ls = action_block_lines(e);
    lemma_labeled_one_line("Name"@, "Name: "@, e.name);
    if f.traits.len() > 0 {
        lemma_join_trimmed(f.traits, ", "@);
        lemma_join_lacks(f.traits, ", "@, '\n');
        lemma_labeled_one_line("Traits"@, "Traits: "@, tr);
    }
    if f.trigger is Some {
        lemma_labeled_one_line("Trigger"@, "Trigger: "@, f.trigger->Some_0);
    }
    if f.requirements is Some {
        lemma_labeled_one_line("Requirements"@, "Requirements: "@, f.requirements->Some_0);
    }
    if f.effect_parts.len() > 0 {
        lemma_join_trimmed(f.effect_parts, " "@);
        assert forall|j: int| 0 <= j < f.effect_parts.len() implies !(
        #[trigger] f.effect_parts[j]).contains('\n') by {
            assert(one_line(f.effect_parts[j]));
        }
        lemma_join_lacks(f.effect_parts, " "@, '\n');
        lemma_labeled_one_line("Effect"@, "Effect: "@, eff);
    }
    lemma_action_label_words(e.label);
    assert forall|i: int| 0 <= i < ls.len() implies one_line(#[trigger] ls[i]) && ls[i][0] != '-' by {}
    assert forall|i: int| 0 <= i < ls.len() implies is_trimmed_text(#[trigger] ls[i]) by {
        assert(one_line(ls[i]));
    }
    lemma_join_trimmed(ls, "\n"@);
    lemma_block_lines_no_separator(ls);
}

/// A heading's label is one trimmed line, not starting with `-`.
proof fn lemma_action_label_words(label: Seq<char>)
    requires
        label == "Action"@ || label == "Free Action"@ || label == "Reaction"@,
    ensures
        one_line(label),
        label.len() > 0 && label[0] != '-',
{
    reveal_strlit("Action");
    reveal_strlit("Free Action");
    reveal_strlit("Reaction");
    assert forall|i: int| 0 <= i < label.len() implies label[i] != '\n' by {}
}

/// The candidate `c` reads back the action entry `e`: a candidate of the
/// type its label names, with its name, the trait, trigger and
/// requirements its paragraphs label, the rest as the effect, and full
/// confidence.
pub open spec fn reads_back_action(c: CandidateView, e: ActionEntry) -> bool {
    let f = read_paragraphs(paragraphs(e.body));
    &&& c.rule_type == action_label_type(e.label)
    &&& c.name == Some(e.name)
    &&& c.traits == list_items(join(f.traits, ", "@))
    &&& c.trigger == f.trigger
    &&& c.requirements == match f.requirements {
        Some(r) => list_items(r),
        None => seq![],
    }
    &&& c.effect == (if f.effect_parts.len() > 0 {
        Some(join(f.effect_parts, " "@))
    } else {
        None
    })
    &&& c.confidence == BASE_CONFIDENCE
}

/// An action page whose entries' names and traits came out as single
/// trimmed lines converts into exactly one block per entry, in order,
/// and each block reads back, under the parser, as a candidate of the
/// type the entry's heading names, with its name, trait, trigger and
/// requirements, at full confidence.
pub proof fn law_converted_actions_read_back(text: Seq<char>)
    requires
        forall|i: int|
            0 <= i < action_entries(text).len() ==> action_heading_well_read(
                #[trigger] action_entries(text)[i],
            ),
    ensures
        blocks(converted_actions(text)) == action_entries(text).map_values(
            |e: ActionEntry| action_block(e),
        ),
        forall|i: int, id: u128|
            0 <= i < action_entries(text).len() ==> reads_back_action(
                #[trigger] block_candidate(action_block(action_entries(text)[i]), id),
                action_entries(text)[i],
            ),
{
    lemma_label_words_lowercase();
    let es = action_entries(text);
    let bs = es.map_values(|e: ActionEntry| action_block(e));
    lemma_action_entries_bodies(text);
    assert forall|i: int| 0 <= i < bs.len() implies is_trimmed_text(#[trigger] bs[i])
        && has_no_separator_line(bs[i]) by {
        lemma_action_block_framed(es[i]);
    }
    lemma_blocks_of_join(bs);
    assert forall|i: int, id: u128| 0 <= i < es.len() implies reads_back_action(
        #[trigger] block_candidate(action_block(es[i]), id),
        es[i],
    ) by {
        let e = es[i];
        assert(action_heading_well_read(e));
        assert(action_body_well_read(e));
        assert forall|j: int| 0 <= j < e.body.len() implies (#[trigger] e.body[j]).len() == 0
            || one_line(e.body[j]) by {}
        law_action_block_reads_back(e, id);
    }
}


// ---------------------------------------------------------------------
// Laws on single lines and paragraphs
// ---------------------------------------------------------------------

proof fn lemma_marker_is_shouty(line: Seq<char>)
    requires
        is_feat_marker(line),
    ensures
        shouty(line),
{
    reveal_strlit("FEAT ");
    let rest = strip_prefix(line, "FEAT "@)->Some_0;
    assert(line.take(5) =~= "FEAT "@);
    assert(line.take(5)[0] == line[0]);
    assert("FEAT "@[0] == 'F');
    assert(line[0] == 'F');
    assert(is_letter(line[0]));
    assert forall|i: int| 0 <= i < line.len() && is_letter(#[trigger] line[i]) implies is_upper(
        line[i],
    ) by {
        if i < 5 {
            assert(line[i] == "FEAT "@[i]);
        } else {
            assert(line[i] == rest[i - 5]);
        }
    }
}

/// `FEAT ` followed by any level, one or more ASCII digits, is a level
/// marker; and a shouty name line, such a marker and a shouty trait line,
/// ended by a line that is not shouty, read as one feat heading: the name
/// title-cased, the trait lowercased, the heading ending before the
/// closing line.
pub proof fn law_feat_level_marker_of_any_level(
    name: Seq<char>,
    level: Seq<char>,
    trait_line: Seq<char>,
    closing: Seq<char>,
    rest: Seq<Seq<char>>,
)
    requires
        level.len() > 0,
        forall|i: int| 0 <= i < level.len() ==> '0' <= #[trigger] level[i] && level[i] <= '9',
        name.len() > 0,
        shouty(name),
        strip_prefix(name, "FEAT "@) is None,
        trait_line.len() > 0,
        shouty(trait_line),
        strip_prefix(trait_line, "FEAT "@) is None,
        closing.len() > 0,
        !shouty(closing),
    ensures
        is_feat_marker("FEAT "@ + level),
        feat_heading(seq![name, "FEAT "@ + level, trait_line, closing] + rest, 0) == Some(
            (title_cased(name), seq![lowercase_of(trait_line)], 3int),
        ),
{
    reveal_strlit("FEAT ");
    let marker = "FEAT "@ + level;
    assert(marker.take(5) =~= "FEAT "@);
    assert(marker.skip(5) =~= level);
    assert(is_feat_marker(marker));
    if is_feat_marker(closing) {
        lemma_marker_is_shouty(closing);
    }
    let ls = seq![name, marker, trait_line, closing] + rest;
    assert(ls[0] == name && ls[1] == marker && ls[2] == trait_line && ls[3] == closing);
    let e: Seq<Seq<char>> = seq![];
    assert(heading_scan(ls, 3, seq![name, trait_line], true) == (seq![name, trait_line], true, 3int));
    assert(e.push(name).push(trait_line) =~= seq![name, trait_line]);
    assert(heading_scan(ls, 2, e.push(name), true) == (seq![name, trait_line], true, 3int));
    assert(heading_scan(ls, 1, e.push(name), false) == (seq![name, trait_line], true, 3int));
    assert(heading_scan(ls, 0, e, false) == (seq![name, trait_line], true, 3int));
    assert(seq![name, trait_line].skip(1) =~= seq![trait_line]);
    assert(seq![trait_line].drop_last() =~= Seq::<Seq<char>>::empty());
    assert(distinct_lowered(Seq::<Seq<char>>::empty()) == Seq::<Seq<char>>::empty());
    assert(!Seq::<Seq<char>>::empty().contains(lowercase_of(trait_line)));
    assert(distinct_lowered(seq![trait_line]) =~= seq![lowercase_of(trait_line)]);
}

/// After the `List of Conditions` anchor, with an entry being read, a
/// non-blank line that is not a heading is dropped as a page number when
/// every character is an ASCII digit, and otherwise appended (trimmed) to
/// the entry's body.
pub proof fn law_condition_body_keeps_all_but_page_numbers(ls: Seq<Seq<char>>, line: Seq<char>)
    requires
        condition_acc(ls).2,
        condition_acc(ls).1 is Some,
        trim(line).len() > 0,
        !condition_heading_line(trim(line)),
    ensures
        (forall|i: int| 0 <= i < trim(line).len() ==> '0' <= #[trigger] trim(line)[i] && trim(
            line,
        )[i] <= '9') ==> condition_acc(ls.push(line)) == condition_acc(ls),
        (exists|i: int|
            0 <= i < trim(line).len() && !('0' <= #[trigger] trim(line)[i] && trim(line)[i]
                <= '9')) ==> condition_acc(ls.push(line)) == (
            condition_acc(ls).0,
            Some(
                ConditionEntry {
                    body: condition_acc(ls).1->Some_0.body.push(trim(line)),
                    ..condition_acc(ls).1->Some_0
                },
            ),
            true,
        ),
{
    assert(ls.push(line).drop_last() =~= ls);
    let t = trim(line);
    if exists|i: int| 0 <= i < t.len() && !('0' <= #[trigger] t[i] && t[i] <= '9') {
        let i = choose|i: int| 0 <= i < t.len() && !('0' <= #[trigger] t[i] && t[i] <= '9');
        assert(!is_digit(t[i]));
        assert(!bare_page_number(t));
    }
}

proof fn lemma_not_shouty_at(p: Seq<char>, i: int)
    requires
        0 <= i < p.len(),
        'a' <= p[i] && p[i] <= 'z',
    ensures
        !shouty(p),
{
    assert(is_letter(p[i]));
    assert(!is_upper(p[i]));
}

/// A `Trigger` or `Requirements` paragraph whose text holds no `. `
/// gives that field its whole text, trimmed, and adds nothing to the
/// effect.
pub proof fn law_label_without_sentence_end_is_all_value(
    f: ActionFields,
    index: int,
    v: Seq<char>,
)
    requires
        find(v, ". "@) is None,
    ensures
        read_paragraph(f, index, "Trigger "@ + v) == (ActionFields {
            trigger: Some(trim(v)),
            ..f
        }),
        read_paragraph(f, index, "Requirements "@ + v) == (ActionFields {
            requirements: Some(trim(v)),
            ..f
        }),
{
    reveal_strlit("Trigger ");
    reveal_strlit("Trigger");
    reveal_strlit("Requirements ");
    reveal_strlit("Requirements");
    reveal_strlit(" ");
    let t = "Trigger "@ + v;
    let r = "Requirements "@ + v;
    lemma_not_shouty_at(t, 1);
    lemma_not_shouty_at(r, 1);
    assert(t.take(7) =~= "Trigger"@);
    assert(t.skip(7).take(1) =~= " "@);
    assert(t.skip(7).skip(1) =~= v);
    assert(r.take(12) =~= "Requirements"@);
    assert(r.skip(12).take(1) =~= " "@);
    assert(r.skip(12).skip(1) =~= v);
    if t.len() >= 12 {
        assert(t.take(12)[0] != "Requirements"@[0]);
    }
    assert(book_label(t, "Requirements"@) is None);
    assert(book_label(t, "Trigger"@) == Some((trim(v), None::<Seq<char>>)));
    assert(book_label(r, "Requirements"@) == Some((trim(v), None::<Seq<char>>)));
    assert(f.effect_parts + opt_seq(None) =~= f.effect_parts);
}

} // verus!
