//! The per-conversation initialization table.
//!
//! A web AI does not know that it was "initialized" with a set of
//! constraints, so a small table records, for each conversation key, the
//! fingerprint of the constraint text that was injected into it. On the first
//! ask (or when the fingerprint changes) the constraints are sent once; later
//! asks in the same conversation reuse them.

use vstd::prelude::*;
use crate::text::{
    chars_of, contains, decimal, find, find_exec, find_from, lemma_contains_iff_occurs,
    lemma_find_from_extend, lemma_find_from_occurs, lemma_trim_end_char, occurs_at, push_char,
    push_decimal, push_range, string_of, trim_end_char,
};

verus! {

/// One row of the table: which constraint text a conversation received, and when.
pub struct InitRecord {
    pub fingerprint: String,
    pub injected_at: String,
}

/// The abstract value of an [`InitRecord`].
pub struct InitRecordView {
    pub fingerprint: Seq<char>,
    pub injected_at: Seq<char>,
}

impl View for InitRecord {
    type V = InitRecordView;

    open spec fn view(&self) -> InitRecordView {
        InitRecordView { fingerprint: self.fingerprint@, injected_at: self.injected_at@ }
    }
}

/// The table: conversation key -> record. Each key occurs once.
pub struct State {
    conversations: Vec<(String, InitRecord)>,
}

/// The rows of a table, by their abstract values.
pub open spec fn rows_view(rows: Seq<(String, InitRecord)>) -> Seq<(Seq<char>, InitRecordView)> {
    rows.map_values(|r: (String, InitRecord)| (r.0@, r.1@))
}

/// The map that a sequence of rows denotes; a later row wins over an earlier one.
pub open spec fn rows_map(rows: Seq<(Seq<char>, InitRecordView)>) -> Map<Seq<char>, InitRecordView>
    decreases rows.len(),
{
    if rows.len() == 0 {
        Map::empty()
    } else {
        rows_map(rows.drop_last()).insert(rows.last().0, rows.last().1)
    }
}

/// No key occurs twice among the rows.
pub open spec fn keys_unique(rows: Seq<(Seq<char>, InitRecordView)>) -> bool {
    forall|i: int, j: int| 0 <= i < j < rows.len() ==> rows[i].0 != rows[j].0
}

proof fn lemma_rows_map_domain(rows: Seq<(Seq<char>, InitRecordView)>, k: Seq<char>)
    ensures
        rows_map(rows).contains_key(k) <==> exists|i: int| 0 <= i < rows.len() && rows[i].0 == k,
    decreases rows.len(),
{
    if rows.len() > 0 {
        lemma_rows_map_domain(rows.drop_last(), k);
        if rows_map(rows).contains_key(k) && rows.last().0 != k {
            let i = choose|i: int| 0 <= i < rows.len() - 1 && rows.drop_last()[i].0 == k;
            assert(rows[i].0 == k);
        }
        if exists|i: int| 0 <= i < rows.len() && rows[i].0 == k {
            let i = choose|i: int| 0 <= i < rows.len() && rows[i].0 == k;
            if i < rows.len() - 1 {
                assert(rows.drop_last()[i].0 == k);
            }
        }
    }
}

proof fn lemma_rows_map_at(rows: Seq<(Seq<char>, InitRecordView)>, i: int)
    requires
        keys_unique(rows),
        0 <= i < rows.len(),
    ensures
        rows_map(rows).contains_key(rows[i].0),
        rows_map(rows)[rows[i].0] == rows[i].1,
    decreases rows.len(),
{
    if i < rows.len() - 1 {
        assert(keys_unique(rows.drop_last()));
        assert(rows.drop_last()[i] == rows[i]);
        lemma_rows_map_at(rows.drop_last(), i);
    }
}

proof fn lemma_rows_map_update(rows: Seq<(Seq<char>, InitRecordView)>, i: int, v: InitRecordView)
    requires
        keys_unique(rows),
        0 <= i < rows.len(),
    ensures
        rows_map(rows.update(i, (rows[i].0, v))) == rows_map(rows).insert(rows[i].0, v),
    decreases rows.len(),
{
    let k = rows[i].0;
    let upd = rows.update(i, (k, v));
    if i == rows.len() - 1 {
        assert(upd.drop_last() =~= rows.drop_last());
        assert(rows_map(upd) =~= rows_map(rows).insert(k, v));
    } else {
        assert(keys_unique(rows.drop_last()));
        assert(upd.drop_last() =~= rows.drop_last().update(i, (k, v)));
        lemma_rows_map_update(rows.drop_last(), i, v);
        assert(rows.last().0 != k);
        assert(rows_map(upd) =~= rows_map(rows).insert(k, v));
    }
}

impl Default for InitRecord {
    /// A record with no fingerprint and no time.
    fn default() -> (r: InitRecord)
        ensures
            r@ == (InitRecordView { fingerprint: Seq::empty(), injected_at: Seq::empty() }),
    {
        InitRecord { fingerprint: String::new(), injected_at: String::new() }
    }
}

impl Default for State {
    /// The empty table.
    fn default() -> (s: State)
        ensures
            s@ == Map::<Seq<char>, InitRecordView>::empty(),
    {
        State::new()
    }
}

impl View for State {
    type V = Map<Seq<char>, InitRecordView>;

    closed spec fn view(&self) -> Map<Seq<char>, InitRecordView> {
        rows_map(rows_view(self.conversations@))
    }
}

impl State {
    #[verifier::type_invariant]
    closed spec fn well_formed(self) -> bool {
        keys_unique(rows_view(self.conversations@))
    }

    /// The empty table.
    pub fn new() -> (s: State)
        ensures
            s@ == Map::<Seq<char>, InitRecordView>::empty(),
    {
        let s = State { conversations: Vec::new() };
        assert(rows_view(s.conversations@) =~= Seq::empty());
        s
    }

    /// The table that holds the given rows; where a key occurs more than once
    /// the later row wins.
    pub fn from_rows(rows: &Vec<(String, InitRecord)>) -> (s: State)
        ensures
            s@ == rows_map(rows_view(rows@)),
    {
        let mut s = State::new();
        let mut i: usize = 0;
        while i < rows.len()
            invariant
                i <= rows@.len(),
                s@ == rows_map(rows_view(rows@.take(i as int))),
            decreases rows.len() - i,
        {
            let row = &rows[i];
            let rec = InitRecord {
                fingerprint: row.1.fingerprint.clone(),
                injected_at: row.1.injected_at.clone(),
            };
            s.insert(row.0.clone(), rec);
            proof {
                let t = rows_view(rows@.take(i + 1));
                assert(t.drop_last() =~= rows_view(rows@.take(i as int)));
            }
            i += 1;
        }
        assert(rows@.take(rows@.len() as int) =~= rows@);
        s
    }

    /// The rows of the table, each key once.
    pub fn rows(&self) -> (r: &Vec<(String, InitRecord)>)
        ensures
            rows_map(rows_view(r@)) == self@,
            keys_unique(rows_view(r@)),
    {
        proof { use_type_invariant(self); }
        &self.conversations
    }

    /// Sets the row for `key` to `rec`.
    fn insert(&mut self, key: String, rec: InitRecord)
        ensures
            final(self)@ == old(self)@.insert(key@, rec@),
    {
        proof { use_type_invariant(&*self); }
        let pos = self.position(key.as_str());
        let ghost old_rows = rows_view(self.conversations@);
        let mut rows: Vec<(String, InitRecord)> = Vec::new();
        std::mem::swap(&mut rows, &mut self.conversations);
        match pos {
            Some(i) => {
                rows.set(i, (key, rec));
                proof {
                    lemma_rows_map_update(old_rows, i as int, rec@);
                    assert(rows_view(rows@) =~= old_rows.update(i as int, (old_rows[i as int].0, rec@)));
                    assert(keys_unique(rows_view(rows@)));
                }
            }
            None => {
                proof {
                    lemma_rows_map_domain(old_rows, key@);
                }
                rows.push((key, rec));
                assert(rows_view(rows@).drop_last() =~= old_rows);
                proof {
                    let nr = rows_view(rows@);
                    assert forall|a: int, b: int| 0 <= a < b < nr.len() implies nr[a].0 != nr[b].0 by {
                        if b == nr.len() - 1 {
                            assert(old_rows[a].0 == nr[a].0);
                        } else {
                            assert(old_rows[a] == nr[a] && old_rows[b] == nr[b]);
                        }
                    }
                }
            }
        }
        self.conversations = rows;
    }

    /// The index of the row for `key`, if there is one.
    fn position(&self, key: &str) -> (r: Option<usize>)
        ensures
            match r {
                Some(i) => i < self.conversations@.len() && self.conversations@[i as int].0@ == key@,
                None => !self@.contains_key(key@),
            },
    {
        proof { use_type_invariant(self); }
        let wanted = String::from_str(key);
        let mut i: usize = 0;
        while i < self.conversations.len()
            invariant
                i <= self.conversations@.len(),
                wanted@ == key@,
                forall|j: int| 0 <= j < i ==> self.conversations@[j].0@ != key@,
            decreases self.conversations.len() - i,
        {
            if self.conversations[i].0 == wanted {
                return Some(i);
            }
            i += 1;
        }
        proof {
            lemma_rows_map_domain(rows_view(self.conversations@), key@);
        }
        None
    }
}

/// The marker that introduces a conversation id in a URL.
pub open spec fn conversation_marker() -> Seq<char> {
    seq!['/', 'c', '/']
}

/// The key of a conversation URL: `/c/<id>` where `<id>` is what follows the
/// first `/c/` with trailing slashes removed; the whole URL where there is no
/// `/c/` or nothing follows it.
pub open spec fn conversation_key(url: Seq<char>) -> Seq<char> {
    match find(url, conversation_marker()) {
        Some(pos) => {
            let id = trim_end_char(url.subrange(pos + 3, url.len() as int), '/');
            if id.len() > 0 {
                conversation_marker() + id
            } else {
                url
            }
        }
        None => url,
    }
}

/// The URL names a conversation: it holds `/c/` followed by an id.
pub open spec fn names_conversation(url: Seq<char>) -> bool {
    match find(url, conversation_marker()) {
        Some(pos) => trim_end_char(url.subrange(pos + 3, url.len() as int), '/').len() > 0,
        None => false,
    }
}

/// A conversation was initialized with exactly `fingerprint`.
pub open spec fn initialized(table: Map<Seq<char>, InitRecordView>, key: Seq<char>, fingerprint: Seq<char>) -> bool {
    table.contains_key(key) && table[key].fingerprint == fingerprint
}

/// The table after recording that `key` was initialized with `fingerprint`.
pub open spec fn marked(
    table: Map<Seq<char>, InitRecordView>,
    key: Seq<char>,
    fingerprint: Seq<char>,
    now_secs: Option<u64>,
) -> Map<Seq<char>, InitRecordView> {
    table.insert(key, InitRecordView { fingerprint, injected_at: injected_at_text(now_secs) })
}

/// What `mark_initialized` records as the time of injection: the seconds
/// since the Unix epoch in decimal, or `?` when the clock could not say.
pub open spec fn injected_at_text(now_secs: Option<u64>) -> Seq<char> {
    match now_secs {
        Some(t) => decimal(t as nat),
        None => seq!['?'],
    }
}

/// True if, in the table, the conversation `key` was initialized with
/// exactly `fingerprint`.
pub fn is_initialized(state: &State, key: &str, fingerprint: &str) -> (r: bool)
    ensures
        r == initialized(state@, key@, fingerprint@),
{
    proof { use_type_invariant(state); }
    match state.position(key) {
        Some(i) => {
            proof {
                lemma_rows_map_at(rows_view(state.conversations@), i as int);
            }
            state.conversations[i].1.fingerprint == String::from_str(fingerprint)
        }
        None => false,
    }
}


/// Records in the table that the conversation `key` was initialized with `fingerprint` at
/// `now_secs` (seconds since the Unix epoch, `None` where the clock failed).
pub fn mark_initialized(state: &mut State, key: &str, fingerprint: &str, now_secs: Option<u64>)
    ensures
        final(state)@ == marked(old(state)@, key@, fingerprint@, now_secs),
{
    let mut injected_at = String::new();
    match now_secs {
        Some(t) => push_decimal(&mut injected_at, t),
        None => push_char(&mut injected_at, '?'),
    }
    assert(injected_at@ =~= injected_at_text(now_secs));
    let rec = InitRecord { fingerprint: String::from_str(fingerprint), injected_at };
    state.insert(String::from_str(key), rec);
}

/// Derive a stable conversation key from a URL: `/c/<id>` is the canonical
/// shape; anything else falls back to the whole URL.
pub fn key_from_conversation(url: &str) -> (r: String)
    ensures
        r@ == conversation_key(url@),
{
    let cs = chars_of(url);
    let marker = vec!['/', 'c', '/'];
    assert(marker@ =~= conversation_marker());
    match find_exec(&cs, &marker) {
        Some(pos) => {
            assert(marker@.len() == 3);
            assert(pos + 3 <= cs.len());
            let start = pos + 3;
            let mut end = cs.len();
            while end > start && cs[end - 1] == '/'
                invariant
                    start <= end <= cs@.len(),
                    trim_end_char(cs@.subrange(start as int, cs@.len() as int), '/')
                        == trim_end_char(cs@.subrange(start as int, end as int), '/'),
                decreases end,
            {
                assert(cs@.subrange(start as int, end as int).drop_last()
                    =~= cs@.subrange(start as int, end - 1));
                end -= 1;
            }
            let ghost id = cs@.subrange(start as int, end as int);
            assert(trim_end_char(id, '/') == id);
            if end > start {
                let mut r = string_of(&marker);
                push_range(&mut r, &cs, start, end);
                r
            } else {
                String::from_str(url)
            }
        }
        None => String::from_str(url),
    }
}


/// Once a conversation is marked as initialized with a fingerprint, asking
/// about that conversation answers yes for that fingerprint and no for any
/// other, and every other conversation is answered as before.
pub proof fn law_query_after_mark(
    table: Map<Seq<char>, InitRecordView>,
    key: Seq<char>,
    fingerprint: Seq<char>,
    now_secs: Option<u64>,
    asked_key: Seq<char>,
    asked_fingerprint: Seq<char>,
)
    ensures
        initialized(marked(table, key, fingerprint, now_secs), asked_key, asked_fingerprint) == if asked_key
            == key {
            asked_fingerprint == fingerprint
        } else {
            initialized(table, asked_key, asked_fingerprint)
        },
{
}

/// Deriving the key of a key changes nothing: keys are stable.
pub proof fn law_key_idempotent(url: Seq<char>)
    ensures
        conversation_key(conversation_key(url)) == conversation_key(url),
{
    let m = conversation_marker();
    if let Some(pos) = find(url, m) {
        let rest = url.subrange(pos + 3, url.len() as int);
        let id = trim_end_char(rest, '/');
        if id.len() > 0 {
            lemma_trim_end_char(rest, '/');
            let k = m + id;
            assert(k.subrange(0, 3) =~= m);
            assert(occurs_at(k, m, 0));
            assert(find(k, m) == Some(0int));
            assert(k.subrange(3, k.len() as int) =~= id);
            assert(trim_end_char(id, '/') == id);
        }
    }
}

/// A trailing slash after a conversation URL does not change its key.
pub proof fn law_key_ignores_trailing_slash(url: Seq<char>)
    requires
        names_conversation(url),
    ensures
        conversation_key(url.push('/')) == conversation_key(url),
{
    let m = conversation_marker();
    let pos = find(url, m)->0;
    lemma_find_from_extend(url, m, 0, seq!['/']);
    assert(url + seq!['/'] =~= url.push('/'));
    lemma_find_from_occurs(url, m, 0);
    let rest = url.subrange(pos + 3, url.len() as int);
    let ext = url.push('/');
    assert(ext.subrange(pos + 3, ext.len() as int) =~= rest.push('/'));
    assert(rest.push('/').drop_last() =~= rest);
}

/// The first occurrence from `i` on is the one that `find_from` reports.
proof fn lemma_find_from_first(s: Seq<char>, p: Seq<char>, i: int, pos: int)
    requires
        0 <= i <= pos,
        occurs_at(s, p, pos),
        forall|k: int| i <= k < pos ==> !occurs_at(s, p, k),
    ensures
        find_from(s, p, i) == Some(pos),
    decreases pos - i,
{
    if i < pos {
        lemma_find_from_first(s, p, i + 1, pos);
    }
}

/// Trailing slashes after an id that does not end in one are all removed.
proof fn lemma_trim_slashes(id: Seq<char>, slashes: Seq<char>)
    requires
        id.len() > 0,
        id.last() != '/',
        forall|k: int| 0 <= k < slashes.len() ==> slashes[k] == '/',
    ensures
        trim_end_char(id + slashes, '/') == id,
    decreases slashes.len(),
{
    if slashes.len() == 0 {
        assert(id + slashes =~= id);
    } else {
        assert((id + slashes).drop_last() =~= id + slashes.drop_last());
        lemma_trim_slashes(id, slashes.drop_last());
    }
}

/// The key of a conversation URL is `/c/` and the id that follows the first
/// `/c/`, without the trailing slashes; a URL without `/c/` is its own key.
pub proof fn law_key_of_conversation_url(base: Seq<char>, id: Seq<char>, slashes: Seq<char>)
    requires
        id.len() > 0,
        id.last() != '/',
        forall|k: int| 0 <= k < slashes.len() ==> slashes[k] == '/',
        forall|k: int| 0 <= k < base.len() ==> !occurs_at(base + "/c/"@ + id + slashes, "/c/"@, k),
    ensures
        conversation_key(base + "/c/"@ + id + slashes) == "/c/"@ + id,
        !contains(base, "/c/"@) ==> conversation_key(base) == base,
{
    reveal_strlit("/c/");
    assert("/c/"@ =~= conversation_marker());
    let m = conversation_marker();
    let url = base + m + id + slashes;
    let pos = base.len() as int;
    assert(url.subrange(pos, pos + 3) =~= m);
    lemma_find_from_first(url, m, 0, pos);
    assert(url.subrange(pos + 3, url.len() as int) =~= id + slashes);
    lemma_trim_slashes(id, slashes);
    lemma_contains_iff_occurs(base, m);
}

} // verus!
