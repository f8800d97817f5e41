//! Runs each logical parse at most once, keyed on `(document_id,
//! document_version, content_digest, parser_version)`, so that a retried
//! `pf2e.parse` reproduces the same `candidate_id`s. The tables live in
//! PostgreSQL; the statements are issued through `RunDatabase`, one
//! transaction per parse.

use vstd::prelude::*;

use crate::domain::{
    Candidate, CandidateError, CandidateRepository, CandidateView, ParseOutcome, SourceReference,
    SourceReferenceView,
};
use crate::parser::{block_candidate, blocks, distinct_ids, parse_candidates};
use crate::domain::{opt_view, RuleType};
use crate::ids::{hyphenated, is_random_uuid, parse_uuid, uuid_text, uuid_value};
use crate::text::{chars_of, string_of, strs, trim, trimmed};

verus! {

/// The key of one logical parse.
pub struct RunKey {
    pub document_id: u128,
    pub document_version: i64,
    pub content_digest: [u8; 32],
    pub parser_version: String,
}

pub struct RunKeyView {
    pub document_id: u128,
    pub document_version: i64,
    pub content_digest: Seq<u8>,
    pub parser_version: Seq<char>,
}

impl View for RunKey {
    type V = RunKeyView;

    open spec fn view(&self) -> RunKeyView {
        RunKeyView {
            document_id: self.document_id,
            document_version: self.document_version,
            content_digest: self.content_digest@,
            parser_version: self.parser_version@,
        }
    }
}

/// A statement against the store failed.
#[derive(Debug)]
pub struct StoreFailure;

/// One transaction against the parse-run tables, seen through `runs`:
/// every recorded run key with the candidates recorded under it, as this
/// transaction sees them (the store when it began, with its own writes).
/// The store runs each transaction in isolation, so reads change nothing
/// and writes change only this transaction's view until it commits (a
/// conflicting run committed meanwhile by another transaction makes the
/// write fail rather than appear); a transaction dropped without `commit`
/// leaves the store as it was.
pub trait RunTransaction: Sized {
    /// The runs this transaction sees. Implementations written outside
    /// Verus (the PostgreSQL one in the service, in-memory ones in tests)
    /// cannot define a spec method, hence the placeholder body; code
    /// generic over the transaction, as everything here is, never sees it.
    closed spec fn runs(&self) -> Map<RunKeyView, Seq<CandidateView>> {
        Map::empty()
    }

    /// Every content digest recorded for `(document_id, document_version)`.
    fn recorded_digests(&mut self, document_id: u128, document_version: i64) -> (r: Result<
        Vec<Vec<u8>>,
        StoreFailure,
    >)
        ensures
            final(self).runs() == old(self).runs(),
            r matches Ok(v) ==> digest_set(v@) == recorded_digests_of(
                old(self).runs(),
                document_id,
                document_version,
            ),
    ;

    /// Whether a run with exactly this key is recorded.
    fn run_recorded(&mut self, key: &RunKey) -> (r: Result<bool, StoreFailure>)
        ensures
            final(self).runs() == old(self).runs(),
            r matches Ok(b) ==> b == old(self).runs().contains_key(key@),
    ;

    /// The candidates recorded for the run with this key, in any order.
    fn recorded_candidates(&mut self, key: &RunKey) -> (r: Result<Vec<Candidate>, StoreFailure>)
        ensures
            final(self).runs() == old(self).runs(),
            r matches Ok(v) ==> candidate_views(v@).to_multiset() == (if old(
                self,
            ).runs().contains_key(key@) {
                old(self).runs()[key@]
            } else {
                seq![]
            }).to_multiset(),
    ;

    /// Records the run unless one with this key exists; the number of rows
    /// written.
    fn record_run(&mut self, key: &RunKey, request_id: u128) -> (r: Result<u64, StoreFailure>)
        ensures
            r matches Ok(n) ==> ((n == 0) == old(self).runs().contains_key(key@)),
            r matches Ok(n) ==> (n == 0 ==> final(self).runs() == old(self).runs()),
            r matches Ok(n) ==> (n != 0 ==> final(self).runs() == old(self).runs().insert(
                key@,
                seq![],
            )),
    ;

    /// Records one candidate of the run with this key.
    fn record_candidate(&mut self, key: &RunKey, candidate: &Candidate) -> (r: Result<
        (),
        StoreFailure,
    >)
        requires
            old(self).runs().contains_key(key@),
        ensures
            r is Ok ==> final(self).runs() == old(self).runs().insert(
                key@,
                old(self).runs()[key@].push(candidate@),
            ),
    ;

    /// Makes this transaction's writes part of the store.
    fn commit(self) -> Result<(), StoreFailure>;
}

/// The database the runs are kept in.
pub trait RunDatabase {
    type Transaction: RunTransaction;

    fn transaction(&self) -> Result<Self::Transaction, StoreFailure>;
}

pub struct PostgresCandidateRepository<D> {
    database: D,
}

impl<D> PostgresCandidateRepository<D> {
    pub fn new(database: D) -> (r: Self)
        ensures
            r.spec_database() == database,
    {
        PostgresCandidateRepository { database }
    }

    pub closed spec fn spec_database(&self) -> D {
        self.database
    }

    pub fn database(&self) -> (r: &D)
        ensures
            *r == self.spec_database(),
    {
        &self.database
    }
}

pub open spec fn candidate_views(v: Seq<Candidate>) -> Seq<CandidateView> {
    v.map_values(|c: Candidate| c@)
}

/// Candidates freshly parsed from `text`, each under its own identifier:
/// a random version 4 UUID, no two the same.
pub open spec fn parsed_from(fresh: Seq<CandidateView>, text: Seq<char>) -> bool {
    &&& fresh.len() == blocks(text).len()
    &&& forall|i: int|
        0 <= i < fresh.len() ==> #[trigger] fresh[i] == block_candidate(
            blocks(text)[i],
            fresh[i].candidate_id,
        )
    &&& forall|i: int| 0 <= i < fresh.len() ==> is_random_uuid(#[trigger] fresh[i].candidate_id)
    &&& distinct_ids(fresh.map_values(|c: CandidateView| c.candidate_id))
}

/// The key a parse under `parser_version` of `source` is recorded under.
pub open spec fn run_key(parser_version: Seq<char>, source: SourceReferenceView) -> RunKeyView {
    RunKeyView {
        document_id: source.document_id,
        document_version: source.document_version,
        content_digest: source.content_digest,
        parser_version,
    }
}

/// The digests recorded for a document version among `runs`, under any
/// parser version.
pub open spec fn recorded_digests_of(
    runs: Map<RunKeyView, Seq<CandidateView>>,
    document_id: u128,
    document_version: i64,
) -> Set<Seq<u8>> {
    Set::new(
        |d: Seq<u8>|
            exists|k: RunKeyView|
                #[trigger] runs.contains_key(k) && k.document_id == document_id
                    && k.document_version == document_version && k.content_digest == d,
    )
}

/// Whether `runs` already hold the source's document version under
/// another digest.
pub open spec fn digest_conflict(
    runs: Map<RunKeyView, Seq<CandidateView>>,
    source: SourceReferenceView,
) -> bool {
    exists|d: Seq<u8>|
        #[trigger] recorded_digests_of(runs, source.document_id, source.document_version).contains(
            d,
        ) && d != source.content_digest
}

/// What one parse of `source` under `key` does to a store holding
/// `before`, ending with `result` and the store holding `after` (what
/// `parse_once_in` is proved to do to the runs its transaction sees):
/// - blank text is refused and nothing is written;
/// - a document version recorded under another digest is refused and
///   nothing is written;
/// - a recorded run gives back its candidates (in any order), marked
///   already processed, and nothing is written;
/// - otherwise the text is parsed afresh and the run is recorded with
///   exactly those candidates.
/// A store failure (`Repository`) may come at any point after the blank
/// check; the transaction is then not committed.
pub open spec fn parse_effect(
    before: Map<RunKeyView, Seq<CandidateView>>,
    key: RunKeyView,
    source: SourceReferenceView,
    result: Result<(Seq<CandidateView>, bool), CandidateError>,
    after: Map<RunKeyView, Seq<CandidateView>>,
) -> bool {
    if trim(source.source_text).len() == 0 {
        result == Err::<(Seq<CandidateView>, bool), CandidateError>(CandidateError::EmptySourceText)
            && after == before
    } else if result == Err::<(Seq<CandidateView>, bool), CandidateError>(
        CandidateError::Repository,
    ) {
        true
    } else if digest_conflict(before, source) {
        result == Err::<(Seq<CandidateView>, bool), CandidateError>(
            CandidateError::SourceDigestMismatch,
        ) && after == before
    } else if before.contains_key(key) {
        &&& result matches Ok((c, processed))
        &&& processed
        &&& c.to_multiset() == before[key].to_multiset()
        &&& after == before
    } else {
        &&& result matches Ok((c, processed))
        &&& !processed
        &&& parsed_from(c, source.source_text)
        &&& after == before.insert(key, c)
    }
}

/// The candidates and flag of a parse outcome, or its error.
pub open spec fn outcome_view(r: Result<ParseOutcome, CandidateError>) -> Result<
    (Seq<CandidateView>, bool),
    CandidateError,
> {
    match r {
        Ok(o) => Ok((candidate_views(o.candidates@), o.was_already_processed)),
        Err(e) => Err(e),
    }
}

proof fn lemma_parse_recorded_key(
    before: Map<RunKeyView, Seq<CandidateView>>,
    key: RunKeyView,
    source: SourceReferenceView,
    first: Result<(Seq<CandidateView>, bool), CandidateError>,
    mid: Map<RunKeyView, Seq<CandidateView>>,
)
    requires
        key.document_id == source.document_id,
        key.document_version == source.document_version,
        key.content_digest == source.content_digest,
        parse_effect(before, key, source, first, mid),
        first is Ok,
    ensures
        mid.contains_key(key),
        mid[key].to_multiset() == first->Ok_0.0.to_multiset(),
        !digest_conflict(mid, source),
        forall|k: RunKeyView| k != key ==> (mid.contains_key(k) == before.contains_key(k)),
{
    assert forall|d: Seq<u8>|
        #[trigger] recorded_digests_of(mid, source.document_id, source.document_version).contains(
            d,
        ) implies d == source.content_digest by {
        let k = choose|k: RunKeyView|
            #[trigger] mid.contains_key(k) && k.document_id == source.document_id
                && k.document_version == source.document_version && k.content_digest == d;
        if k != key {
            assert(before.contains_key(k));
            assert(recorded_digests_of(before, source.document_id, source.document_version).contains(
                d,
            ));
        }
    }
}

/// A retried parse of the same source under the same parser version
/// gives back the candidates of the first -- the same candidates, with
/// the same `candidate_id`s, in any order -- marked already processed,
/// and writes nothing; or it meets a store failure.
pub proof fn law_retried_parse_reuses_candidates(
    before: Map<RunKeyView, Seq<CandidateView>>,
    parser_version: Seq<char>,
    source: SourceReferenceView,
    first: Result<(Seq<CandidateView>, bool), CandidateError>,
    mid: Map<RunKeyView, Seq<CandidateView>>,
    retry: Result<(Seq<CandidateView>, bool), CandidateError>,
    after: Map<RunKeyView, Seq<CandidateView>>,
)
    requires
        parse_effect(before, run_key(parser_version, source), source, first, mid),
        first is Ok,
        parse_effect(mid, run_key(parser_version, source), source, retry, after),
    ensures
        retry is Ok ==> retry->Ok_0.1 && retry->Ok_0.0.to_multiset() == first->Ok_0.0.to_multiset()
            && after == mid,
        retry is Err ==> retry == Err::<(Seq<CandidateView>, bool), CandidateError>(
            CandidateError::Repository,
        ),
{
    lemma_parse_recorded_key(before, run_key(parser_version, source), source, first, mid);
}

/// Once a source has been parsed, the same document version under a
/// different content digest is refused and nothing is written (or the
/// store fails), under any parser version.
pub proof fn law_changed_digest_is_refused(
    before: Map<RunKeyView, Seq<CandidateView>>,
    parser_version: Seq<char>,
    source: SourceReferenceView,
    first: Result<(Seq<CandidateView>, bool), CandidateError>,
    mid: Map<RunKeyView, Seq<CandidateView>>,
    other_parser_version: Seq<char>,
    changed: SourceReferenceView,
    result: Result<(Seq<CandidateView>, bool), CandidateError>,
    after: Map<RunKeyView, Seq<CandidateView>>,
)
    requires
        parse_effect(before, run_key(parser_version, source), source, first, mid),
        first is Ok,
        changed.document_id == source.document_id,
        changed.document_version == source.document_version,
        changed.content_digest != source.content_digest,
        trim(changed.source_text).len() > 0,
        parse_effect(mid, run_key(other_parser_version, changed), changed, result, after),
    ensures
        (result == Err::<(Seq<CandidateView>, bool), CandidateError>(
            CandidateError::SourceDigestMismatch,
        ) && after == mid) || result == Err::<(Seq<CandidateView>, bool), CandidateError>(
            CandidateError::Repository,
        ),
{
    let key = run_key(parser_version, source);
    lemma_parse_recorded_key(before, key, source, first, mid);
    assert(recorded_digests_of(mid, changed.document_id, changed.document_version).contains(
        source.content_digest,
    ));
    assert(digest_conflict(mid, changed));
}

/// A parse under a parser version not yet recorded for the source parses
/// afresh and records that run, even when another version's run of the
/// same source exists (or it meets a store failure).
pub proof fn law_new_parser_version_parses_afresh(
    before: Map<RunKeyView, Seq<CandidateView>>,
    parser_version: Seq<char>,
    source: SourceReferenceView,
    first: Result<(Seq<CandidateView>, bool), CandidateError>,
    mid: Map<RunKeyView, Seq<CandidateView>>,
    new_parser_version: Seq<char>,
    result: Result<(Seq<CandidateView>, bool), CandidateError>,
    after: Map<RunKeyView, Seq<CandidateView>>,
)
    requires
        parse_effect(before, run_key(parser_version, source), source, first, mid),
        first is Ok,
        new_parser_version != parser_version,
        !before.contains_key(run_key(new_parser_version, source)),
        parse_effect(mid, run_key(new_parser_version, source), source, result, after),
    ensures
        result is Ok ==> !result->Ok_0.1 && parsed_from(result->Ok_0.0, source.source_text)
            && after == mid.insert(run_key(new_parser_version, source), result->Ok_0.0),
        result is Err ==> result == Err::<(Seq<CandidateView>, bool), CandidateError>(
            CandidateError::Repository,
        ),
{
    let key = run_key(parser_version, source);
    let key2 = run_key(new_parser_version, source);
    lemma_parse_recorded_key(before, key, source, first, mid);
    assert(key2 != key);
    assert(!mid.contains_key(key2));
}

/// A fresh parse returns, and records under its key, one candidate per
/// block of the source text, their identifiers random version 4 UUIDs,
/// pairwise distinct.
pub proof fn law_fresh_parse_records_distinct_ids(
    before: Map<RunKeyView, Seq<CandidateView>>,
    key: RunKeyView,
    source: SourceReferenceView,
    candidates: Seq<CandidateView>,
    after: Map<RunKeyView, Seq<CandidateView>>,
)
    requires
        parse_effect(
            before,
            key,
            source,
            Ok::<(Seq<CandidateView>, bool), CandidateError>((candidates, false)),
            after,
        ),
    ensures
        candidates.len() == blocks(source.source_text).len(),
        after.contains_key(key) && after[key] == candidates,
        forall|i: int| 0 <= i < candidates.len() ==> is_random_uuid(#[trigger] candidates[i].candidate_id),
        forall|a: int, b: int|
            0 <= a < b < candidates.len() ==> #[trigger] candidates[a].candidate_id
                != #[trigger] candidates[b].candidate_id,
{
    assert forall|a: int, b: int| 0 <= a < b < candidates.len() implies #[trigger] candidates[a].candidate_id
        != #[trigger] candidates[b].candidate_id by {
        let ids = candidates.map_values(|c: CandidateView| c.candidate_id);
        assert(ids[a] == candidates[a].candidate_id && ids[b] == candidates[b].candidate_id);
    }
}

/// Blank source text is refused and nothing is written.
pub proof fn law_blank_source_is_refused(
    before: Map<RunKeyView, Seq<CandidateView>>,
    key: RunKeyView,
    source: SourceReferenceView,
    result: Result<(Seq<CandidateView>, bool), CandidateError>,
    after: Map<RunKeyView, Seq<CandidateView>>,
)
    requires
        trim(source.source_text).len() == 0,
        parse_effect(before, key, source, result, after),
    ensures
        result == Err::<(Seq<CandidateView>, bool), CandidateError>(
            CandidateError::EmptySourceText,
        ),
        after == before,
{
}

/// What `serde_json::to_string` writes for a list of strings.
pub uninterp spec fn json_text(values: Seq<Seq<char>>) -> Seq<char>;

/// What `serde_json::from_str::<Vec<String>>` reads from `text`, or none
/// when it reports an error.
pub uninterp spec fn json_list(text: Seq<char>) -> Option<Seq<Seq<char>>>;

/// Writes a list of strings with `serde_json::to_string`, named by
/// `json_text`. The crate documents that serialization fails only for a
/// failing `Serialize` impl or a map with non-string keys, neither of
/// which a list of strings has, so the result is always there; and
/// `serde_json::from_str::<Vec<String>>` reads the text back as the same
/// list.
#[verifier::external_body]
fn encode_json_list(values: &Vec<String>) -> (r: Option<String>)
    ensures
        r is Some,
        r matches Some(t) ==> t@ == json_text(strs(values@)),
        r matches Some(t) ==> json_list(t@) == Some(strs(values@)),
{
    serde_json::to_string(values).ok()
}

/// Reads a list of strings with `serde_json::from_str`, its error made
/// `None`; named by `json_list`.
#[verifier::external_body]
fn decode_json_list(text: &String) -> (r: Option<Vec<String>>)
    ensures
        r matches Some(v) ==> json_list(text@) == Some(strs(v@)),
        r is None ==> json_list(text@) is None,
{
    serde_json::from_str::<Vec<String>>(text).ok()
}

/// A list of strings as stored: its JSON text.
pub fn encode_string_list(values: &Vec<String>) -> (r: String)
    ensures
        r@ == json_text(strs(values@)),
        json_list(r@) == Some(strs(values@)),
{
    encode_json_list(values).unwrap()
}

/// A stored list of strings read back; text that is not such a list reads
/// as the empty list.
pub fn decode_string_list(value: &String) -> (r: Vec<String>)
    ensures
        strs(r@) == match json_list(value@) {
            Some(v) => v,
            None => seq![],
        },
{
    match decode_json_list(value) {
        Some(v) => v,
        None => {
            let e: Vec<String> = Vec::new();
            assert(strs(e@) =~= seq![]);
            e
        },
    }
}

/// One candidate as a row of `parsed_candidates`: identifiers as text,
/// lists as JSON text, confidence in hundredths.
pub struct CandidateRow {
    pub candidate_id: String,
    pub rule_type: String,
    pub name: Option<String>,
    pub traits: String,
    pub trigger: Option<String>,
    pub requirements: String,
    pub prerequisites: String,
    pub effect: Option<String>,
    pub related_references: String,
    pub source_text: String,
    pub inferences: String,
    pub confidence: u32,
}

pub struct CandidateRowView {
    pub candidate_id: Seq<char>,
    pub rule_type: Seq<char>,
    pub name: Option<Seq<char>>,
    pub traits: Seq<char>,
    pub trigger: Option<Seq<char>>,
    pub requirements: Seq<char>,
    pub prerequisites: Seq<char>,
    pub effect: Option<Seq<char>>,
    pub related_references: Seq<char>,
    pub source_text: Seq<char>,
    pub inferences: Seq<char>,
    pub confidence: u32,
}

impl View for CandidateRow {
    type V = CandidateRowView;

    open spec fn view(&self) -> CandidateRowView {
        CandidateRowView {
            candidate_id: self.candidate_id@,
            rule_type: self.rule_type@,
            name: opt_view(self.name),
            traits: self.traits@,
            trigger: opt_view(self.trigger),
            requirements: self.requirements@,
            prerequisites: self.prerequisites@,
            effect: opt_view(self.effect),
            related_references: self.related_references@,
            source_text: self.source_text@,
            inferences: self.inferences@,
            confidence: self.confidence,
        }
    }
}

/// The row a candidate is recorded as.
pub open spec fn row_of(c: CandidateView) -> CandidateRowView {
    CandidateRowView {
        candidate_id: hyphenated(c.candidate_id),
        rule_type: c.rule_type.name(),
        name: c.name,
        traits: json_text(c.traits),
        trigger: c.trigger,
        requirements: json_text(c.requirements),
        prerequisites: json_text(c.prerequisites),
        effect: c.effect,
        related_references: json_text(c.references),
        source_text: c.source_text,
        inferences: json_text(c.inferences),
        confidence: c.confidence,
    }
}

/// A stored list read back.
pub open spec fn stored_list(text: Seq<char>) -> Seq<Seq<char>> {
    match json_list(text) {
        Some(v) => v,
        None => seq![],
    }
}

/// The candidate a row reads back as; a row whose identifier is not a
/// UUID is a repository failure.
pub open spec fn candidate_of(row: CandidateRowView) -> Result<CandidateView, CandidateError> {
    match uuid_value(row.candidate_id) {
        None => Err(CandidateError::Repository),
        Some(id) => Ok(
            CandidateView {
                candidate_id: id,
                rule_type: RuleType::from_name(row.rule_type),
                name: row.name,
                traits: stored_list(row.traits),
                trigger: row.trigger,
                requirements: stored_list(row.requirements),
                effect: row.effect,
                prerequisites: stored_list(row.prerequisites),
                references: stored_list(row.related_references),
                source_text: row.source_text,
                inferences: stored_list(row.inferences),
                confidence: row.confidence,
            },
        ),
    }
}

fn clone_opt(o: &Option<String>) -> (r: Option<String>)
    ensures
        opt_view(r) == opt_view(*o),
{
    match o {
        Some(s) => Some(s.clone()),
        None => None,
    }
}

/// Writes a candidate as the row it is recorded as, which reads back as
/// the candidate.
pub fn candidate_row(c: &Candidate) -> (r: CandidateRow)
    ensures
        r@ == row_of(c@),
        candidate_of(r@) == Ok::<CandidateView, CandidateError>(c@),
{
    let id = uuid_text(c.candidate_id);
    let row = CandidateRow {
        candidate_id: string_of(&id),
        rule_type: string_of(&chars_of(c.rule_type.as_str())),
        name: clone_opt(&c.name),
        traits: encode_string_list(&c.traits),
        trigger: clone_opt(&c.trigger),
        requirements: encode_string_list(&c.requirements),
        prerequisites: encode_string_list(&c.prerequisites),
        effect: clone_opt(&c.effect),
        related_references: encode_string_list(&c.references),
        source_text: c.source_text.clone(),
        inferences: encode_string_list(&c.inferences),
        confidence: c.confidence,
    };
    proof {
        law_recorded_candidate_reads_back(c@);
    }
    row
}

/// Reads a recorded row back as a candidate.
pub fn candidate_from_row(row: &CandidateRow) -> (r: Result<Candidate, CandidateError>)
    ensures
        match candidate_of(row@) {
            Ok(v) => (r matches Ok(c) && c@ == v),
            Err(e) => (r matches Err(f) && f == e),
        },
{
    let id_text = chars_of(row.candidate_id.as_str());
    let candidate_id = match parse_uuid(&id_text) {
        Some(v) => v,
        None => return Err(CandidateError::Repository),
    };
    Ok(
        Candidate {
            candidate_id,
            rule_type: RuleType::parse(row.rule_type.as_str()),
            name: clone_opt(&row.name),
            traits: decode_string_list(&row.traits),
            trigger: clone_opt(&row.trigger),
            requirements: decode_string_list(&row.requirements),
            effect: clone_opt(&row.effect),
            prerequisites: decode_string_list(&row.prerequisites),
            references: decode_string_list(&row.related_references),
            source_text: row.source_text.clone(),
            inferences: decode_string_list(&row.inferences),
            confidence: row.confidence,
        },
    )
}

/// A recorded candidate reads back as itself, wherever the JSON lists it
/// was written with read back as written and its identifier's text reads
/// back as its identifier.
pub proof fn law_recorded_candidate_reads_back(c: CandidateView)
    requires
        uuid_value(hyphenated(c.candidate_id)) == Some(c.candidate_id),
        json_list(json_text(c.traits)) == Some(c.traits),
        json_list(json_text(c.requirements)) == Some(c.requirements),
        json_list(json_text(c.prerequisites)) == Some(c.prerequisites),
        json_list(json_text(c.references)) == Some(c.references),
        json_list(json_text(c.inferences)) == Some(c.inferences),
    ensures
        candidate_of(row_of(c)) == Ok::<CandidateView, CandidateError>(c),
{
    crate::domain::law_rule_type_name_round_trip(c.rule_type);
}

fn same_bytes(a: &Vec<u8>, b: &[u8; 32]) -> (r: bool)
    ensures
        r == (a@ == b@),
{
    if a.len() != 32 {
        return false;
    }
    let mut i: usize = 0;
    while i < 32
        invariant
            i <= 32,
            a.len() == 32,
            forall|k: int| 0 <= k < i ==> a@[k] == b@[k],
        decreases 32 - i,
    {
        if a[i] != b[i] {
            return false;
        }
        i = i + 1;
    }
    assert(a@ =~= b@);
    true
}

/// The digests a store answered with, as a set.
pub open spec fn digest_set(recorded: Seq<Vec<u8>>) -> Set<Seq<u8>> {
    recorded.map_values(|d: Vec<u8>| d@).to_set()
}

/// The key a parse under `parser_version` of `source` is recorded under.
pub fn run_key_of(parser_version: &str, source: &SourceReference) -> (r: RunKey)
    ensures
        r@ == run_key(parser_version@, source@),
{
    RunKey {
        document_id: source.document_id,
        document_version: source.document_version,
        content_digest: source.content_digest,
        parser_version: string_of(&chars_of(parser_version)),
    }
}

/// Whether a recorded digest differs from `digest`.
pub fn other_digest_recorded(recorded: &Vec<Vec<u8>>, digest: &[u8; 32]) -> (r: bool)
    ensures
        r == exists|d: Seq<u8>| digest_set(recorded@).contains(d) && d != digest@,
{
    let ghost set = digest_set(recorded@);
    let mut i: usize = 0;
    while i < recorded.len()
        invariant
            i <= recorded.len(),
            set == digest_set(recorded@),
            forall|k: int| 0 <= k < i ==> recorded@[k]@ == digest@,
        decreases recorded.len() - i,
    {
        if !same_bytes(&recorded[i], digest) {
            proof {
                assert(recorded@.map_values(|d: Vec<u8>| d@)[i as int] == recorded@[i as int]@);
                assert(set.contains(recorded@[i as int]@));
            }
            return true;
        }
        i = i + 1;
    }
    proof {
        assert forall|d: Seq<u8>| set.contains(d) implies d == digest@ by {
            assert(recorded@.map_values(|d: Vec<u8>| d@).contains(d));
            let k = recorded@.map_values(|d: Vec<u8>| d@).index_of(d);
            assert(recorded@[k]@ == d);
        }
    }
    false
}

/// One parse of `source` under `parser_version` inside the transaction
/// `tx`, left uncommitted: refuses blank source text, and a document
/// version already recorded under another digest; gives back the recorded
/// candidates when the run exists; otherwise parses the text and records
/// the run with its candidates. Any store failure is
/// `CandidateError::Repository`. What it returns and what it leaves in the
/// transaction is exactly `parse_effect`.
pub fn parse_once_in<T: RunTransaction>(
    tx: &mut T,
    parser_version: &str,
    source: SourceReference,
) -> (r: Result<ParseOutcome, CandidateError>)
    ensures
        parse_effect(
            old(tx).runs(),
            run_key(parser_version@, source@),
            source@,
            outcome_view(r),
            final(tx).runs(),
        ),
        r matches Ok(o) ==> o.source == source,
{
    let text = chars_of(source.source_text.as_str());
    let t = trimmed(&text);
    if t.len() == 0 {
        return Err(CandidateError::EmptySourceText);
    }
    let recorded = match tx.recorded_digests(source.document_id, source.document_version) {
        Ok(d) => d,
        Err(_) => return Err(CandidateError::Repository),
    };
    let ghost before = old(tx).runs();
    let ghost src = source@;
    if other_digest_recorded(&recorded, &source.content_digest) {
        proof {
            let d = choose|d: Seq<u8>| digest_set(recorded@).contains(d) && d != src.content_digest;
            assert(recorded_digests_of(before, src.document_id, src.document_version).contains(d));
            assert(digest_conflict(before, src));
        }
        return Err(CandidateError::SourceDigestMismatch);
    }
    proof {
        if digest_conflict(before, src) {
            let d = choose|d: Seq<u8>|
                #[trigger] recorded_digests_of(before, src.document_id, src.document_version).contains(
                    d,
                ) && d != src.content_digest;
            assert(digest_set(recorded@).contains(d));
        }
    }
    let key = run_key_of(parser_version, &source);
    let found = match tx.run_recorded(&key) {
        Ok(f) => f,
        Err(_) => return Err(CandidateError::Repository),
    };
    if found {
        let loaded = match tx.recorded_candidates(&key) {
            Ok(c) => c,
            Err(_) => return Err(CandidateError::Repository),
        };
        return Ok(ParseOutcome { source, candidates: loaded, was_already_processed: true });
    }
    let candidates = parse_candidates(source.source_text.as_str());
    let ghost fresh = candidate_views(candidates@);
    proof {
        assert(fresh.map_values(|c: CandidateView| c.candidate_id) =~= candidates@.map_values(
            |c: Candidate| c.candidate_id,
        ));
        assert forall|i: int| 0 <= i < fresh.len() implies is_random_uuid(
            #[trigger] fresh[i].candidate_id,
        ) by {
            assert(fresh[i] == candidates@[i]@);
        }
    }
    assert(parsed_from(fresh, src.source_text));
    let request_id = crate::ids::new_candidate_id();
    let inserted = match tx.record_run(&key, request_id) {
        Ok(n) => n,
        Err(_) => return Err(CandidateError::Repository),
    };
    if inserted == 0 {
        let loaded = match tx.recorded_candidates(&key) {
            Ok(c) => c,
            Err(_) => return Err(CandidateError::Repository),
        };
        return Ok(ParseOutcome { source, candidates: loaded, was_already_processed: true });
    }
    assert(candidate_views(candidates@.take(0)) =~= Seq::<CandidateView>::empty());
    let mut j: usize = 0;
    while j < candidates.len()
        invariant
            j <= candidates.len(),
            trim(source@.source_text).len() > 0,
            key@ == run_key(parser_version@, src),
            tx.runs() == before.insert(key@, candidate_views(candidates@.take(j as int))),
        decreases candidates.len() - j,
    {
        match tx.record_candidate(&key, &candidates[j]) {
            Ok(()) => {},
            Err(_) => return Err(CandidateError::Repository),
        }
        proof {
            assert(candidate_views(candidates@.take(j as int)).push(candidates@[j as int]@)
                =~= candidate_views(candidates@.take(j + 1)));
        }
        j = j + 1;
    }
    proof {
        assert(candidates@.take(j as int) =~= candidates@);
    }
    Ok(ParseOutcome { source, candidates, was_already_processed: false })
}

impl<D: RunDatabase> CandidateRepository for PostgresCandidateRepository<D> {
    /// Runs (or recognizes a prior run of) one logical parse in one
    /// transaction of the database: `parse_once_in`, then a commit when it
    /// succeeded. Blank source text is refused before the database is
    /// touched; a failure to begin or commit the transaction is
    /// `CandidateError::Repository`.
    fn parse_once(&self, parser_version: &str, source: SourceReference) -> (r: Result<
        ParseOutcome,
        CandidateError,
    >)
        ensures
            trim(source@.source_text).len() == 0 ==> r == Err::<ParseOutcome, CandidateError>(
                CandidateError::EmptySourceText,
            ),
            exists|before: Map<RunKeyView, Seq<CandidateView>>, after: Map<RunKeyView, Seq<CandidateView>>|
                #[trigger] parse_effect(
                    before,
                    run_key(parser_version@, source@),
                    source@,
                    outcome_view(r),
                    after,
                ),
            r matches Ok(o) ==> o.source == source,
    {
        let text = chars_of(source.source_text.as_str());
        let t = trimmed(&text);
        if t.len() == 0 {
            proof {
                let m = Map::<RunKeyView, Seq<CandidateView>>::empty();
                assert(parse_effect(
                    m,
                    run_key(parser_version@, source@),
                    source@,
                    Err::<(Seq<CandidateView>, bool), CandidateError>(CandidateError::EmptySourceText),
                    m,
                ));
            }
            return Err(CandidateError::EmptySourceText);
        }
        let ghost src = source@;
        let ghost key = run_key(parser_version@, source@);
        let mut tx = match self.database.transaction() {
            Ok(x) => x,
            Err(_) => {
                proof {
                    let m = Map::<RunKeyView, Seq<CandidateView>>::empty();
                    assert(parse_effect(
                        m,
                        key,
                        src,
                        Err::<(Seq<CandidateView>, bool), CandidateError>(CandidateError::Repository),
                        m,
                    ));
                }
                return Err(CandidateError::Repository);
            },
        };
        let ghost before = tx.runs();
        let r = parse_once_in(&mut tx, parser_version, source);
        let ghost after = tx.runs();
        assert(parse_effect(before, key, src, outcome_view(r), after));
        if r.is_ok() {
            match tx.commit() {
                Ok(()) => {},
                Err(_) => {
                    proof {
                        assert(parse_effect(
                            before,
                            key,
                            src,
                            Err::<(Seq<CandidateView>, bool), CandidateError>(CandidateError::Repository),
                            after,
                        ));
                    }
                    return Err(CandidateError::Repository);
                },
            }
        }
        r
    }
}

} // verus!
