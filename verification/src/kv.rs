//! The key-value service: a datagram stores a value under a key, asks for
//! the value of a key, or asks for the version of the server.
//!
//! Line feeds at either end of a datagram do not count. A datagram that holds
//! the word `version` asks for the version; any other with an equals sign
//! stores what follows the first equals sign under what precedes it; the rest
//! ask for the value of a key.
use vstd::prelude::*;

verus! {

/// The line feed.
pub const LINE_FEED: u8 = 0x0a;

/// The equals sign.
pub const EQUALS: u8 = 0x3d;

/// The blank.
pub const BLANK: u8 = 0x20;

/// The word that asks for the version: `version`.
pub open spec fn version_word() -> Seq<u8> {
    seq![0x76u8, 0x65, 0x72, 0x73, 0x69, 0x6f, 0x6e]
}

/// The answer to it: `version=gruberb 1.0`.
pub open spec fn version_reply() -> Seq<u8> {
    seq![
        0x76u8, 0x65, 0x72, 0x73, 0x69, 0x6f, 0x6e, 0x3d, 0x67, 0x72, 0x75, 0x62, 0x65, 0x72,
        0x62, 0x20, 0x31, 0x2e, 0x30,
    ]
}

/// How many line feeds the bytes start with.
pub open spec fn leading_feeds(b: Seq<u8>) -> int
    decreases b.len(),
{
    if b.len() == 0 || b[0] != LINE_FEED {
        0
    } else {
        1 + leading_feeds(b.skip(1))
    }
}

/// How many line feeds the bytes end with.
pub open spec fn trailing_feeds(b: Seq<u8>) -> int
    decreases b.len(),
{
    if b.len() == 0 || b.last() != LINE_FEED {
        0
    } else {
        1 + trailing_feeds(b.drop_last())
    }
}

/// The bytes without the line feeds at either end.
pub open spec fn trimmed(b: Seq<u8>) -> Seq<u8> {
    let rest = b.skip(leading_feeds(b));
    rest.take(rest.len() - trailing_feeds(rest))
}

/// Whether `word` stands at index `i` of `b`.
pub open spec fn word_at(b: Seq<u8>, i: int, word: Seq<u8>) -> bool {
    0 <= i && i + word.len() <= b.len() && b.subrange(i, i + word.len()) == word
}

/// Whether `word` stands somewhere in `b`.
pub open spec fn holds_word(b: Seq<u8>, word: Seq<u8>) -> bool {
    exists|i: int| word_at(b, i, word)
}

/// The index of the first byte `x` in `b`, or the length of `b` without one.
pub open spec fn index_of(b: Seq<u8>, x: u8) -> int
    decreases b.len(),
{
    if b.len() == 0 || b[0] == x {
        0
    } else {
        1 + index_of(b.skip(1), x)
    }
}

/// What a datagram asks for.
pub enum RequestView {
    Version,
    Insert { key: Seq<u8>, value: Seq<u8> },
    Retrieve { key: Seq<u8> },
}

/// What a datagram asks for. A value stored under no key at all is stored
/// under a single blank.
pub open spec fn classify(message: Seq<u8>) -> RequestView {
    let m = trimmed(message);
    let at = index_of(m, EQUALS);
    if holds_word(m, version_word()) {
        RequestView::Version
    } else if 0 <= at < m.len() {
        RequestView::Insert {
            key: if at == 0 {
                seq![BLANK]
            } else {
                m.take(at)
            },
            value: m.skip(at + 1),
        }
    } else {
        RequestView::Retrieve { key: m }
    }
}

/// What a datagram asks for.
#[derive(Debug)]
pub enum Request {
    Version,
    Insert { key: Vec<u8>, value: Vec<u8> },
    Retrieve { key: Vec<u8> },
}

impl View for Request {
    type V = RequestView;

    open spec fn view(&self) -> RequestView {
        match *self {
            Request::Version => RequestView::Version,
            Request::Insert { key, value } => RequestView::Insert { key: key@, value: value@ },
            Request::Retrieve { key } => RequestView::Retrieve { key: key@ },
        }
    }
}

/// The leading line feeds end at the first byte that is none.
proof fn lemma_leading_feeds(b: Seq<u8>, n: int)
    requires
        0 <= n <= b.len(),
        forall|k: int| 0 <= k < n ==> b[k] == LINE_FEED,
        n == b.len() || b[n] != LINE_FEED,
    ensures
        leading_feeds(b) == n,
    decreases n,
{
    if n > 0 {
        let rest = b.skip(1);
        assert forall|k: int| 0 <= k < n - 1 implies rest[k] == LINE_FEED by {
            assert(rest[k] == b[k + 1]);
        }
        lemma_leading_feeds(rest, n - 1);
    }
}

/// The trailing line feeds start behind the last byte that is none.
proof fn lemma_trailing_feeds(b: Seq<u8>, n: int)
    requires
        0 <= n <= b.len(),
        forall|k: int| b.len() - n <= k < b.len() ==> b[k] == LINE_FEED,
        n == b.len() || b[b.len() - n - 1] != LINE_FEED,
    ensures
        trailing_feeds(b) == n,
    decreases n,
{
    if n > 0 {
        let rest = b.drop_last();
        assert forall|k: int| rest.len() - (n - 1) <= k < rest.len() implies rest[k]
            == LINE_FEED by {
            assert(rest[k] == b[k]);
        }
        if n - 1 != rest.len() {
            assert(rest[rest.len() - (n - 1) - 1] == b[b.len() - n - 1]);
        }
        lemma_trailing_feeds(rest, n - 1);
    }
}

/// The first byte `x` stands where none stands before it.
proof fn lemma_index_of(b: Seq<u8>, x: u8, n: int)
    requires
        0 <= n <= b.len(),
        forall|k: int| 0 <= k < n ==> b[k] != x,
        n == b.len() || b[n] == x,
    ensures
        index_of(b, x) == n,
    decreases n,
{
    if n > 0 {
        let rest = b.skip(1);
        assert forall|k: int| 0 <= k < n - 1 implies rest[k] != x by {
            assert(rest[k] == b[k + 1]);
        }
        lemma_index_of(rest, x, n - 1);
    }
}

/// Whether two byte strings are the same.
pub fn same_bytes(a: &[u8], b: &[u8]) -> (same: bool)
    ensures
        same == (a@ == b@),
{
    if a.len() != b.len() {
        return false;
    }
    let mut i: usize = 0;
    while i < a.len()
        invariant
            i <= a.len(),
            a.len() == b.len(),
            forall|k: int| 0 <= k < i ==> a@[k] == b@[k],
        decreases a.len() - i,
    {
        if a[i] != b[i] {
            return false;
        }
        i = i + 1;
    }
    assert(a@ =~= b@);
    true
}

/// The bytes of the slice in a vector of their own.
fn copy_of(b: &[u8]) -> (v: Vec<u8>)
    ensures
        v@ == b@,
{
    let mut v: Vec<u8> = Vec::new();
    let mut i: usize = 0;
    while i < b.len()
        invariant
            i <= b.len(),
            v@ == b@.take(i as int),
        decreases b.len() - i,
    {
        v.push(b[i]);
        assert(v@ =~= b@.take(i + 1));
        i = i + 1;
    }
    assert(b@.take(i as int) =~= b@);
    v
}

/// The word that asks for the version.
fn version_word_bytes() -> (word: Vec<u8>)
    ensures
        word@ == version_word(),
{
    let word = vec![0x76u8, 0x65, 0x72, 0x73, 0x69, 0x6f, 0x6e];
    assert(word@ =~= version_word());
    word
}

/// The answer to a request for the version.
pub fn version_reply_bytes() -> (reply: Vec<u8>)
    ensures
        reply@ == version_reply(),
{
    let reply = vec![
        0x76u8, 0x65, 0x72, 0x73, 0x69, 0x6f, 0x6e, 0x3d, 0x67, 0x72, 0x75, 0x62, 0x65, 0x72,
        0x62, 0x20, 0x31, 0x2e, 0x30,
    ];
    assert(reply@ =~= version_reply());
    reply
}

/// The message without the line feeds at either end.
fn trim(message: &[u8]) -> (m: &[u8])
    ensures
        m@ == trimmed(message@),
{
    let mut start: usize = 0;
    while start < message.len() && message[start] == LINE_FEED
        invariant
            start <= message.len(),
            forall|k: int| 0 <= k < start ==> message@[k] == LINE_FEED,
        decreases message.len() - start,
    {
        start = start + 1;
    }
    proof {
        lemma_leading_feeds(message@, start as int);
    }
    let rest = &message[start..message.len()];
    assert(rest@ =~= message@.skip(start as int));
    let mut end: usize = rest.len();
    while end > 0 && rest[end - 1] == LINE_FEED
        invariant
            end <= rest.len(),
            forall|k: int| end <= k < rest.len() ==> rest@[k] == LINE_FEED,
        decreases end,
    {
        end = end - 1;
    }
    proof {
        lemma_trailing_feeds(rest@, rest.len() - end);
    }
    let m = &rest[0..end];
    assert(m@ =~= rest@.take(end as int));
    m
}

/// Whether `word` stands somewhere in `b`.
fn contains_word(b: &[u8], word: &[u8]) -> (found: bool)
    ensures
        found == holds_word(b@, word@),
{
    if word.len() > b.len() {
        assert forall|i: int| !word_at(b@, i, word@) by {}
        return false;
    }
    let last: usize = b.len() - word.len();
    let mut i: usize = 0;
    loop
        invariant
            i <= last,
            last == b.len() - word.len(),
            forall|k: int| 0 <= k < i ==> !word_at(b@, k, word@),
        ensures
            forall|k: int| 0 <= k <= last ==> !word_at(b@, k, word@),
        decreases last - i,
    {
        let part = &b[i..i + word.len()];
        if same_bytes(part, word) {
            assert(word_at(b@, i as int, word@));
            return true;
        }
        if i == last {
            break ;
        }
        i = i + 1;
    }
    assert forall|k: int| !word_at(b@, k, word@) by {}
    false
}

/// Reads a datagram.
pub fn parse_request(message: &[u8]) -> (request: Request)
    ensures
        request@ == classify(message@),
{
    let m = trim(message);
    let word = version_word_bytes();
    if contains_word(m, word.as_slice()) {
        return Request::Version;
    }
    let mut at: usize = 0;
    while at < m.len() && m[at] != EQUALS
        invariant
            at <= m.len(),
            forall|k: int| 0 <= k < at ==> m@[k] != EQUALS,
        decreases m.len() - at,
    {
        at = at + 1;
    }
    proof {
        lemma_index_of(m@, EQUALS, at as int);
    }
    if at < m.len() {
        let key = if at == 0 {
            let blank = vec![BLANK];
            assert(blank@ =~= seq![BLANK]);
            blank
        } else {
            let head = &m[0..at];
            assert(head@ =~= m@.take(at as int));
            copy_of(head)
        };
        let tail = &m[at + 1..m.len()];
        assert(tail@ =~= m@.skip(at + 1));
        Request::Insert { key, value: copy_of(tail) }
    } else {
        Request::Retrieve { key: copy_of(m) }
    }
}

/// The index of the first entry for `key`, or the number of entries where
/// there is none.
pub open spec fn index_of_key(entries: Seq<(Seq<u8>, Seq<u8>)>, key: Seq<u8>) -> int
    decreases entries.len(),
{
    if entries.len() == 0 || entries[0].0 == key {
        0
    } else {
        1 + index_of_key(entries.skip(1), key)
    }
}

/// The value stored under `key`, if there is one.
pub open spec fn value_of(entries: Seq<(Seq<u8>, Seq<u8>)>, key: Seq<u8>) -> Option<Seq<u8>> {
    let at = index_of_key(entries, key);
    if 0 <= at < entries.len() {
        Some(entries[at].1)
    } else {
        None
    }
}

/// The entries after `value` is stored under `key`: in place of the value
/// that the key had, or as a new entry.
pub open spec fn stored(entries: Seq<(Seq<u8>, Seq<u8>)>, key: Seq<u8>, value: Seq<u8>) -> Seq<
    (Seq<u8>, Seq<u8>),
> {
    let at = index_of_key(entries, key);
    if 0 <= at < entries.len() {
        entries.update(at, (key, value))
    } else {
        entries.push((key, value))
    }
}

/// The first entry for a key stands where none stands before it.
proof fn lemma_index_of_key(entries: Seq<(Seq<u8>, Seq<u8>)>, key: Seq<u8>, n: int)
    requires
        0 <= n <= entries.len(),
        forall|k: int| 0 <= k < n ==> entries[k].0 != key,
        n == entries.len() || entries[n].0 == key,
    ensures
        index_of_key(entries, key) == n,
    decreases n,
{
    if n > 0 {
        let rest = entries.skip(1);
        assert forall|k: int| 0 <= k < n - 1 implies rest[k].0 != key by {
            assert(rest[k] == entries[k + 1]);
        }
        lemma_index_of_key(rest, key, n - 1);
    }
}

/// What the index of the first entry for a key is: within the entries it is
/// the place of an entry for the key, and no entry before it is one; past
/// them, no entry is for the key.
pub proof fn lemma_index_of_key_found(entries: Seq<(Seq<u8>, Seq<u8>)>, key: Seq<u8>)
    ensures
        0 <= index_of_key(entries, key) <= entries.len(),
        index_of_key(entries, key) < entries.len() ==> entries[index_of_key(entries, key)].0
            == key,
        forall|k: int| 0 <= k < index_of_key(entries, key) ==> (#[trigger] entries[k]).0 != key,
    decreases entries.len(),
{
    if entries.len() > 0 && entries[0].0 != key {
        let rest = entries.skip(1);
        lemma_index_of_key_found(rest, key);
        let at = index_of_key(rest, key);
        assert forall|k: int| 0 <= k < at + 1 implies (#[trigger] entries[k]).0 != key by {
            if k > 0 {
                assert(entries[k] == rest[k - 1]);
            }
        }
        if at < rest.len() {
            assert(rest[at] == entries[at + 1]);
        }
    }
}

/// What was stored under a key is found under it, and what is stored under
/// other keys stays.
pub proof fn lemma_stored_is_found(
    entries: Seq<(Seq<u8>, Seq<u8>)>,
    key: Seq<u8>,
    value: Seq<u8>,
    other: Seq<u8>,
)
    ensures
        value_of(stored(entries, key, value), key) == Some(value),
        other != key ==> value_of(stored(entries, key, value), other) == value_of(entries, other),
{
    let after = stored(entries, key, value);
    let at = index_of_key(entries, key);
    let j = index_of_key(entries, other);
    lemma_index_of_key_found(entries, key);
    lemma_index_of_key_found(entries, other);
    if at < entries.len() {
        assert forall|k: int| 0 <= k < after.len() implies (#[trigger] after[k]).0
            == entries[k].0 by {}
        lemma_index_of_key(after, key, at);
        if other != key {
            assert forall|k: int| 0 <= k < j implies after[k].0 != other by {
                assert(entries[k].0 != other);
            }
            lemma_index_of_key(after, other, j);
        }
    } else {
        assert forall|k: int| 0 <= k < entries.len() implies after[k].0 != key by {
            assert(entries[k].0 != key);
        }
        lemma_index_of_key(after, key, entries.len() as int);
        if other != key {
            assert forall|k: int| 0 <= k < j implies after[k].0 != other by {
                assert(entries[k].0 != other);
            }
            if j < entries.len() {
                lemma_index_of_key(after, other, j);
            } else {
                assert forall|k: int| 0 <= k < after.len() implies after[k].0 != other by {
                    if k < entries.len() {
                        assert(entries[k].0 != other);
                    }
                }
                lemma_index_of_key(after, other, after.len() as int);
            }
        }
    }
}

/// The keys and their values, in the order in which the keys were first
/// stored. A later value for a key takes the place of the earlier one.
pub struct Storage {
    entries: Vec<(Vec<u8>, Vec<u8>)>,
}

impl View for Storage {
    type V = Seq<(Seq<u8>, Seq<u8>)>;

    closed spec fn view(&self) -> Seq<(Seq<u8>, Seq<u8>)> {
        self.entries@.map_values(|e: (Vec<u8>, Vec<u8>)| (e.0@, e.1@))
    }
}

impl Storage {
    /// A storage without keys.
    pub fn new() -> (s: Storage)
        ensures
            s@ == Seq::<(Seq<u8>, Seq<u8>)>::empty(),
    {
        let s = Storage { entries: Vec::new() };
        assert(s@ =~= Seq::empty());
        s
    }

    /// The index of the first entry for `key`, or the number of entries.
    fn find(&self, key: &[u8]) -> (at: usize)
        ensures
            at == index_of_key(self@, key@),
            at <= self.entries.len(),
            self.entries.len() == self@.len(),
    {
        let mut i: usize = 0;
        while i < self.entries.len()
            invariant
                i <= self.entries.len(),
                forall|j: int| 0 <= j < i ==> self@[j].0 != key@,
            decreases self.entries.len() - i,
        {
            if same_bytes(self.entries[i].0.as_slice(), key) {
                assert(self@[i as int].0 == key@);
                proof {
                    lemma_index_of_key(self@, key@, i as int);
                }
                return i;
            }
            i = i + 1;
        }
        proof {
            lemma_index_of_key(self@, key@, i as int);
        }
        i
    }

    /// Stores `value` under `key`, in place of the value that the key had,
    /// if it had one.
    pub fn insert(&mut self, key: Vec<u8>, value: Vec<u8>)
        ensures
            final(self)@ == stored(old(self)@, key@, value@),
    {
        let ghost added = (key@, value@);
        let at = self.find(key.as_slice());
        if at < self.entries.len() {
            self.entries[at] = (key, value);
            assert(self@ =~= old(self)@.update(at as int, added));
        } else {
            self.entries.push((key, value));
            assert(self@ =~= old(self)@.push(added));
        }
    }

    /// The value stored under `key`, if there is one.
    pub fn get(&self, key: &[u8]) -> (value: Option<Vec<u8>>)
        ensures
            match value_of(self@, key@) {
                Some(bytes) => value matches Some(v) && v@ == bytes,
                None => value is None,
            },
    {
        let at = self.find(key);
        if at < self.entries.len() {
            Some(copy_of(self.entries[at].1.as_slice()))
        } else {
            None
        }
    }
}

/// The answer to a request for the value of `key`: the key, an equals sign
/// and the value.
pub open spec fn value_reply(key: Seq<u8>, value: Seq<u8>) -> Seq<u8> {
    key + seq![EQUALS] + value
}

/// What a datagram does to the storage, and the answer to it, if it has one:
/// a request for the version or for the value of a key that has one.
pub open spec fn answer(entries: Seq<(Seq<u8>, Seq<u8>)>, message: Seq<u8>) -> (
    Seq<(Seq<u8>, Seq<u8>)>,
    Option<Seq<u8>>,
) {
    match classify(message) {
        RequestView::Version => (entries, Some(version_reply())),
        RequestView::Insert { key, value } => (stored(entries, key, value), None),
        RequestView::Retrieve { key } => (
            entries,
            match value_of(entries, key) {
                Some(value) => Some(value_reply(key, value)),
                None => None,
            },
        ),
    }
}

/// Takes a datagram: changes the storage as it asks, and hands back the
/// answer to send, if there is one.
pub fn respond(storage: &mut Storage, message: &[u8]) -> (reply: Option<Vec<u8>>)
    ensures
        final(storage)@ == answer(old(storage)@, message@).0,
        match answer(old(storage)@, message@).1 {
            Some(bytes) => reply matches Some(v) && v@ == bytes,
            None => reply is None,
        },
{
    match parse_request(message) {
        Request::Version => Some(version_reply_bytes()),
        Request::Insert { key, value } => {
            storage.insert(key, value);
            None
        },
        Request::Retrieve { key } => {
            match storage.get(key.as_slice()) {
                Some(value) => {
                    let mut reply = key;
                    let ghost name = reply@;
                    reply.push(EQUALS);
                    let mut i: usize = 0;
                    while i < value.len()
                        invariant
                            i <= value.len(),
                            reply@ == name + seq![EQUALS] + value@.take(i as int),
                        decreases value.len() - i,
                    {
                        reply.push(value[i]);
                        assert(reply@ =~= name + seq![EQUALS] + value@.take(i + 1));
                        i = i + 1;
                    }
                    assert(value@.take(i as int) =~= value@);
                    Some(reply)
                },
                None => None,
            }
        },
    }
}

} // verus!
