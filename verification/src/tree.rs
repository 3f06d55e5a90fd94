//! Trees: entries of mode, name and identifier, laid out one behind the other in the order
//! of their names.

use crate::bytes::{
    append, copy_range, find, find_byte, lemma_find_byte, lemma_find_byte_is, NUL, SP,
};
use crate::error::BodyFault;
use crate::oid::ObjectId;
use vstd::prelude::*;

verus! {

/// What a tree entry says.
pub ghost struct EntryView {
    pub mode: Seq<u8>,
    pub name: Seq<u8>,
    pub id: Seq<u8>,
}

impl EntryView {
    /// Whether the entry can be read back from its bytes: no space in the mode, no NUL in
    /// the name, and an identifier of twenty bytes.
    pub open spec fn wf(self) -> bool {
        &&& forall|i: int| 0 <= i < self.mode.len() ==> #[trigger] self.mode[i] != 32
        &&& forall|i: int| 0 <= i < self.name.len() ==> #[trigger] self.name[i] != 0
        &&& self.id.len() == 20
    }

    /// The entry's bytes: mode, a space, name, a NUL, and the identifier as it is.
    pub open spec fn bytes(self) -> Seq<u8> {
        self.mode + seq![32u8] + self.name + seq![0u8] + self.id
    }
}

/// The bytes of the entries, one behind the other.
pub open spec fn entries_bytes(es: Seq<EntryView>) -> Seq<u8>
    decreases es.len(),
{
    if es.len() == 0 {
        Seq::empty()
    } else {
        es[0].bytes() + entries_bytes(es.skip(1))
    }
}

/// The bytes of entries with one more behind them.
pub proof fn lemma_entries_bytes_push(es: Seq<EntryView>, e: EntryView)
    ensures
        entries_bytes(es.push(e)) == entries_bytes(es) + e.bytes(),
    decreases es.len(),
{
    if es.len() == 0 {
        assert(es.push(e).skip(1) =~= Seq::<EntryView>::empty());
        assert(entries_bytes(es.push(e).skip(1)) =~= Seq::<u8>::empty());
        assert(entries_bytes(es.push(e)) =~= e.bytes());
    } else {
        lemma_entries_bytes_push(es.skip(1), e);
        assert(es.push(e).skip(1) =~= es.skip(1).push(e));
        assert(entries_bytes(es.push(e)) =~= entries_bytes(es) + e.bytes());
    }
}

/// The entries laid out in `s` from `from` on, or why there are none.
///
/// An entry's mode ends at the first space, its name at the first NUL behind that, and
/// twenty bytes of identifier follow.
pub open spec fn parse_entries(s: Seq<u8>, from: int) -> Result<Seq<EntryView>, BodyFault>
    decreases s.len() - from,
    via parse_entries_decreases
{
    if from >= s.len() {
        Ok(Seq::empty())
    } else {
        let sp = find_byte(s, 32, from, s.len() as int);
        let nul = find_byte(s, 0, sp + 1, s.len() as int);
        if sp >= s.len() {
            Err(BodyFault::UnterminatedMode)
        } else if nul >= s.len() {
            Err(BodyFault::UnterminatedName)
        } else if s.len() - nul - 1 < 20 {
            Err(BodyFault::TruncatedId)
        } else {
            let entry = EntryView {
                mode: s.subrange(from, sp),
                name: s.subrange(sp + 1, nul),
                id: s.subrange(nul + 1, nul + 21),
            };
            match parse_entries(s, nul + 21) {
                Ok(rest) => Ok(seq![entry] + rest),
                Err(fault) => Err(fault),
            }
        }
    }
}

#[via_fn]
proof fn parse_entries_decreases(s: Seq<u8>, from: int) {
    if from < s.len() {
        lemma_find_byte(s, 32, from, s.len() as int);
        let sp = find_byte(s, 32, from, s.len() as int);
        if sp < s.len() {
            lemma_find_byte(s, 0, sp + 1, s.len() as int);
        }
    }
}

/// Well-formed entries are read back from their bytes, wherever in `s` those stand.
pub proof fn lemma_parse_entries_bytes(s: Seq<u8>, from: int, es: Seq<EntryView>)
    requires
        0 <= from <= s.len(),
        s.subrange(from, s.len() as int) == entries_bytes(es),
        forall|i: int| 0 <= i < es.len() ==> (#[trigger] es[i]).wf(),
    ensures
        parse_entries(s, from) == Ok::<Seq<EntryView>, BodyFault>(es),
    decreases es.len(),
{
    let tail = s.subrange(from, s.len() as int);
    if es.len() == 0 {
        assert(tail.len() == 0);
        assert(es =~= Seq::<EntryView>::empty());
    } else {
        let e = es[0];
        let rest = entries_bytes(es.skip(1));
        assert(e.wf());
        assert(tail == e.bytes() + rest);
        let end = s.len() as int;
        let sp = from + e.mode.len();
        let nul = sp + 1 + e.name.len();
        assert forall|j: int| from <= j < sp implies s[j] != 32 by {
            assert(s[j] == tail[j - from]);
            assert(tail[j - from] == e.mode[j - from]);
        }
        assert(s[sp] == tail[sp - from]);
        lemma_find_byte_is(s, 32, from, end, sp);
        assert forall|j: int| sp + 1 <= j < nul implies s[j] != 0 by {
            assert(s[j] == tail[j - from]);
            assert(tail[j - from] == e.name[j - sp - 1]);
        }
        assert(s[nul] == tail[nul - from]);
        lemma_find_byte_is(s, 0, sp + 1, end, nul);
        assert(s.subrange(from, sp) =~= e.mode) by {
            assert forall|k: int| 0 <= k < e.mode.len() implies s[from + k] == e.mode[k] by {
                assert(s[from + k] == tail[k]);
            }
        }
        assert(s.subrange(sp + 1, nul) =~= e.name) by {
            assert forall|k: int| 0 <= k < e.name.len() implies s[sp + 1 + k] == e.name[k] by {
                assert(s[sp + 1 + k] == tail[sp + 1 + k - from]);
            }
        }
        assert(s.subrange(nul + 1, nul + 21) =~= e.id) by {
            assert forall|k: int| 0 <= k < 20 implies s[nul + 1 + k] == e.id[k] by {
                assert(s[nul + 1 + k] == tail[nul + 1 + k - from]);
            }
        }
        assert(s.subrange(nul + 21, end) =~= rest) by {
            assert forall|k: int| 0 <= k < rest.len() implies s[nul + 21 + k] == rest[k] by {
                assert(s[nul + 21 + k] == tail[nul + 21 + k - from]);
            }
        }
        assert forall|i: int| 0 <= i < es.skip(1).len() implies (#[trigger] es.skip(1)[i]).wf() by {
            assert(es.skip(1)[i] == es[i + 1]);
        }
        lemma_parse_entries_bytes(s, nul + 21, es.skip(1));
        assert(seq![e] + es.skip(1) =~= es);
    }
}

/// Entries that were read are well-formed, and their bytes are what they were read from.
pub proof fn lemma_entries_bytes_parse(s: Seq<u8>, from: int, es: Seq<EntryView>)
    requires
        0 <= from <= s.len(),
        parse_entries(s, from) == Ok::<Seq<EntryView>, BodyFault>(es),
    ensures
        entries_bytes(es) == s.subrange(from, s.len() as int),
        forall|i: int| 0 <= i < es.len() ==> (#[trigger] es[i]).wf(),
    decreases s.len() - from,
{
    let end = s.len() as int;
    if from >= s.len() {
        assert(entries_bytes(es) =~= s.subrange(from, end));
    } else {
        let sp = find_byte(s, 32, from, end);
        lemma_find_byte(s, 32, from, end);
        let nul = find_byte(s, 0, sp + 1, end);
        lemma_find_byte(s, 0, sp + 1, end);
        let entry = EntryView {
            mode: s.subrange(from, sp),
            name: s.subrange(sp + 1, nul),
            id: s.subrange(nul + 1, nul + 21),
        };
        let rest = parse_entries(s, nul + 21)->Ok_0;
        assert(es == seq![entry] + rest);
        lemma_entries_bytes_parse(s, nul + 21, rest);
        assert(es[0] == entry);
        assert(es.skip(1) =~= rest);
        assert(entry.bytes() + s.subrange(nul + 21, end) =~= s.subrange(from, end));
        assert(entry.wf());
        assert forall|i: int| 0 <= i < es.len() implies (#[trigger] es[i]).wf() by {
            if i > 0 {
                assert(es[i] == rest[i - 1]);
            }
        }
    }
}

/// Whether `a` from index `i` on comes no later than `b` from index `i` on, byte by byte.
pub open spec fn lex_le_from(a: Seq<u8>, b: Seq<u8>, i: int) -> bool
    decreases a.len() - i,
{
    if i >= a.len() {
        true
    } else if i >= b.len() {
        false
    } else if a[i] != b[i] {
        a[i] < b[i]
    } else {
        lex_le_from(a, b, i + 1)
    }
}

/// Whether `a` comes no later than `b` in the order of byte strings: a prefix before what
/// it is a prefix of, and else by the first byte that differs.
pub open spec fn lex_le(a: Seq<u8>, b: Seq<u8>) -> bool {
    lex_le_from(a, b, 0)
}

/// Of two byte strings one comes no later than the other.
pub proof fn lemma_lex_total(a: Seq<u8>, b: Seq<u8>, i: int)
    requires
        0 <= i,
    ensures
        lex_le_from(a, b, i) || lex_le_from(b, a, i),
    decreases a.len() - i,
{
    if i < a.len() && i < b.len() && a[i] == b[i] {
        lemma_lex_total(a, b, i + 1);
    }
}

/// The order of byte strings is transitive.
pub proof fn lemma_lex_trans(a: Seq<u8>, b: Seq<u8>, c: Seq<u8>, i: int)
    requires
        0 <= i,
        lex_le_from(a, b, i),
        lex_le_from(b, c, i),
    ensures
        lex_le_from(a, c, i),
    decreases a.len() - i,
{
    if i < a.len() && a[i] == b[i] && b[i] == c[i] {
        lemma_lex_trans(a, b, c, i + 1);
    }
}

/// Whether each entry's name comes no later than the names of the entries behind it.
pub open spec fn sorted_by_name(es: Seq<EntryView>) -> bool {
    forall|i: int, j: int|
        0 <= i < j < es.len() ==> lex_le(#[trigger] es[i].name, #[trigger] es[j].name)
}

/// Where an entry called `name` goes among `s`: behind the last entry whose name comes no
/// later.
pub open spec fn insert_pos(s: Seq<EntryView>, name: Seq<u8>) -> int
    decreases s.len(),
{
    if s.len() == 0 {
        0
    } else if lex_le(s.last().name, name) {
        s.len() as int
    } else {
        insert_pos(s.drop_last(), name)
    }
}

/// The entries in the order of their names, entries of one name in the order in which
/// they stood.
pub open spec fn sort_by_name(es: Seq<EntryView>) -> Seq<EntryView>
    decreases es.len(),
{
    if es.len() == 0 {
        es
    } else {
        let front = sort_by_name(es.drop_last());
        front.insert(insert_pos(front, es.last().name), es.last())
    }
}

/// `insert_pos` is in range, the entry in front of it comes no later than `name`, and
/// every entry from it on comes later.
pub proof fn lemma_insert_pos(s: Seq<EntryView>, name: Seq<u8>)
    ensures
        0 <= insert_pos(s, name) <= s.len(),
        insert_pos(s, name) > 0 ==> lex_le(s[insert_pos(s, name) - 1].name, name),
        forall|k: int| insert_pos(s, name) <= k < s.len() ==> !lex_le((#[trigger] s[k]).name, name),
    decreases s.len(),
{
    if s.len() > 0 && !lex_le(s.last().name, name) {
        lemma_insert_pos(s.drop_last(), name);
        let p = insert_pos(s.drop_last(), name);
        assert forall|k: int| p <= k < s.len() implies !lex_le((#[trigger] s[k]).name, name) by {
            if k < s.len() - 1 {
                assert(s[k] == s.drop_last()[k]);
            }
        }
        if p > 0 {
            assert(s[p - 1] == s.drop_last()[p - 1]);
        }
    }
}

/// A position with an entry no later than `name` in front of it, and only later entries
/// from it on, is `insert_pos`.
pub proof fn lemma_insert_pos_is(s: Seq<EntryView>, name: Seq<u8>, p: int)
    requires
        0 <= p <= s.len(),
        p > 0 ==> lex_le(s[p - 1].name, name),
        forall|k: int| p <= k < s.len() ==> !lex_le((#[trigger] s[k]).name, name),
    ensures
        insert_pos(s, name) == p,
    decreases s.len(),
{
    if s.len() > 0 {
        if p < s.len() {
            assert(!lex_le(s[s.len() - 1].name, name));
            let front = s.drop_last();
            assert forall|k: int| p <= k < front.len() implies !lex_le(
                (#[trigger] front[k]).name,
                name,
            ) by {
                assert(front[k] == s[k]);
            }
            if p > 0 {
                assert(front[p - 1] == s[p - 1]);
            }
            lemma_insert_pos_is(front, name, p);
        }
    }
}

/// Sorting gives the same entries, each as often as before, in the order of their names.
pub proof fn lemma_sort_by_name(es: Seq<EntryView>)
    ensures
        sorted_by_name(sort_by_name(es)),
        sort_by_name(es).len() == es.len(),
        sort_by_name(es).to_multiset() == es.to_multiset(),
    decreases es.len(),
{
    if es.len() > 0 {
        let e = es.last();
        let front = sort_by_name(es.drop_last());
        lemma_sort_by_name(es.drop_last());
        lemma_insert_pos(front, e.name);
        let p = insert_pos(front, e.name);
        let r = front.insert(p, e);
        assert forall|i: int, j: int| 0 <= i < j < r.len() implies lex_le(
            #[trigger] r[i].name,
            #[trigger] r[j].name,
        ) by {
            if j < p {
                assert(r[i] == front[i] && r[j] == front[j]);
            } else if j == p {
                assert(r[i] == front[i]);
                if i < p - 1 {
                    assert(lex_le(front[i].name, front[p - 1].name));
                    lemma_lex_trans(front[i].name, front[p - 1].name, e.name, 0);
                }
            } else if i == p {
                assert(r[j] == front[j - 1]);
                assert(!lex_le(front[j - 1].name, e.name));
                lemma_lex_total(e.name, front[j - 1].name, 0);
            } else if i < p {
                assert(r[i] == front[i] && r[j] == front[j - 1]);
            } else {
                assert(r[i] == front[i - 1] && r[j] == front[j - 1]);
            }
        }
        vstd::seq_lib::to_multiset_insert(front, p, e);
        assert(es =~= es.drop_last().push(e));
        vstd::seq_lib::to_multiset_build(es.drop_last(), e);
    }
}

/// Entries that are in the order of their names stay as they are.
pub proof fn lemma_sort_of_sorted(es: Seq<EntryView>)
    requires
        sorted_by_name(es),
    ensures
        sort_by_name(es) == es,
    decreases es.len(),
{
    if es.len() > 0 {
        let front = es.drop_last();
        assert forall|i: int, j: int| 0 <= i < j < front.len() implies lex_le(
            #[trigger] front[i].name,
            #[trigger] front[j].name,
        ) by {
            assert(front[i] == es[i] && front[j] == es[j]);
        }
        lemma_sort_of_sorted(front);
        if front.len() > 0 {
            assert(front.last() == es[es.len() - 2]);
            assert(lex_le(es[es.len() - 2].name, es[es.len() - 1].name));
        }
        assert(front.insert(front.len() as int, es.last()) =~= es);
    }
}

/// Sorting leaves the entries of one name in the order in which they stood.
pub proof fn lemma_sort_stable(es: Seq<EntryView>, name: Seq<u8>)
    ensures
        sort_by_name(es).filter(|e: EntryView| e.name == name) == es.filter(
            |e: EntryView| e.name == name,
        ),
    decreases es.len(),
{
    let named = |e: EntryView| e.name == name;
    if es.len() > 0 {
        let e = es.last();
        let front = sort_by_name(es.drop_last());
        lemma_sort_stable(es.drop_last(), name);
        lemma_insert_pos(front, e.name);
        let p = insert_pos(front, e.name);
        let left = front.take(p);
        let right = front.skip(p);
        assert(front =~= left + right);
        assert(front.insert(p, e) =~= left.push(e) + right);
        Seq::filter_distributes_over_add(left, right, named);
        Seq::filter_distributes_over_add(left.push(e), right, named);
        Seq::lemma_filter_push(left, e, named);
        assert(es =~= es.drop_last().push(e));
        Seq::lemma_filter_push(es.drop_last(), e, named);
        if named(e) {
            assert forall|k: int| 0 <= k < right.len() implies !named(#[trigger] right[k]) by {
                assert(right[k] == front[p + k]);
                assert(!lex_le(front[p + k].name, e.name));
                lemma_lex_refl(e.name, 0);
            }
            lemma_filter_none(right, named);
            assert(left.filter(named).push(e) + right.filter(named) =~= (left.filter(named)
                + right.filter(named)).push(e));
        }
    }
}

/// A byte string comes no later than itself.
pub proof fn lemma_lex_refl(a: Seq<u8>, i: int)
    requires
        0 <= i,
    ensures
        lex_le_from(a, a, i),
    decreases a.len() - i,
{
    if i < a.len() {
        lemma_lex_refl(a, i + 1);
    }
}

/// Filtering entries of which none passes leaves nothing.
proof fn lemma_filter_none(s: Seq<EntryView>, pred: spec_fn(EntryView) -> bool)
    requires
        forall|k: int| 0 <= k < s.len() ==> !pred(#[trigger] s[k]),
    ensures
        s.filter(pred) == Seq::<EntryView>::empty(),
    decreases s.len(),
{
    reveal(Seq::filter);
    if s.len() > 0 {
        let front = s.drop_last();
        assert forall|k: int| 0 <= k < front.len() implies !pred(#[trigger] front[k]) by {
            assert(front[k] == s[k]);
        }
        lemma_filter_none(front, pred);
    }
}

/// The entries of a tree's body, or why it is not one: the entries that are laid out in
/// it, which must stand in the order of their names.
pub open spec fn parse_tree(body: Seq<u8>) -> Result<Seq<EntryView>, BodyFault> {
    match parse_entries(body, 0) {
        Ok(es) => if sorted_by_name(es) {
            Ok(es)
        } else {
            Err(BodyFault::UnsortedEntries)
        },
        Err(fault) => Err(fault),
    }
}

/// One entry of a tree: a mode, a name, and the identifier of the object so named.
#[derive(Clone, Debug, PartialEq, Eq)]
pub struct TreeEntry {
    pub mode: Vec<u8>,
    pub name: Vec<u8>,
    pub id: ObjectId,
}

impl View for TreeEntry {
    type V = EntryView;

    open spec fn view(&self) -> EntryView {
        EntryView { mode: self.mode@, name: self.name@, id: self.id@ }
    }
}

/// What each of the entries says.
pub open spec fn views(entries: Seq<TreeEntry>) -> Seq<EntryView> {
    entries.map_values(|e: TreeEntry| e@)
}

/// The entries of `es` at the positions that `order` lists.
pub open spec fn pick(es: Seq<EntryView>, order: Seq<usize>) -> Seq<EntryView> {
    Seq::new(order.len(), |k: int| es[order[k] as int])
}

/// Whether `a` comes no later than `b` in the order of byte strings.
pub fn name_le(a: &[u8], b: &[u8]) -> (r: bool)
    ensures
        r == lex_le(a@, b@),
{
    let mut i: usize = 0;
    while i < a.len() && i < b.len() && a[i] == b[i]
        invariant
            i <= a.len(),
            i <= b.len(),
            lex_le(a@, b@) == lex_le_from(a@, b@, i as int),
        decreases a.len() - i,
    {
        i += 1;
    }
    if i >= a.len() {
        true
    } else if i >= b.len() {
        false
    } else {
        a[i] < b[i]
    }
}

impl TreeEntry {
    /// The entry of the given fields, if it can be read back from its bytes: a mode with
    /// a space or a name with a NUL gives `None`.
    pub fn new(mode: Vec<u8>, name: Vec<u8>, id: ObjectId) -> (r: Option<TreeEntry>)
        ensures
            match r {
                Some(entry) => entry.mode == mode && entry.name == name && entry.id == id
                    && entry@.wf(),
                None => !(EntryView { mode: mode@, name: name@, id: id@ }).wf(),
            },
    {
        let entry = TreeEntry { mode, name, id };
        if entry.is_valid() {
            Some(entry)
        } else {
            None
        }
    }

    /// Whether the entry can be read back from its bytes.
    pub fn is_valid(&self) -> (ok: bool)
        ensures
            ok == self@.wf(),
    {
        let sp: usize = find(self.mode.as_slice(), SP, 0, self.mode.len());
        let nul: usize = find(self.name.as_slice(), NUL, 0, self.name.len());
        proof {
            lemma_find_byte(self.mode@, 32, 0, self.mode@.len() as int);
            lemma_find_byte(self.name@, 0, 0, self.name@.len() as int);
            assert(self.id@.len() == 20);
            if sp < self.mode.len() {
                assert(self@.mode[sp as int] == 32);
            }
            if nul < self.name.len() {
                assert(self@.name[nul as int] == 0);
            }
        }
        sp == self.mode.len() && nul == self.name.len()
    }

    /// Appends the entry's bytes to `out`.
    pub fn write(&self, out: &mut Vec<u8>)
        ensures
            final(out)@ == old(out)@ + self@.bytes(),
    {
        append(out, self.mode.as_slice());
        out.push(SP);
        append(out, self.name.as_slice());
        out.push(NUL);
        append(out, self.id.bytes.as_slice());
        assert(out@ =~= old(out)@ + self@.bytes());
    }
}

/// Whether the entries stand in the order of their names.
pub fn is_sorted(entries: &[TreeEntry]) -> (ok: bool)
    ensures
        ok == sorted_by_name(views(entries@)),
{
    let ghost es = views(entries@);
    if entries.len() < 2 {
        return true;
    }
    let mut i: usize = 0;
    while i + 1 < entries.len()
        invariant
            i + 1 <= entries.len(),
            es == views(entries@),
            forall|a: int, b: int|
                0 <= a < b <= i ==> lex_le(#[trigger] es[a].name, #[trigger] es[b].name),
        decreases entries.len() - i,
    {
        if !name_le(entries[i].name.as_slice(), entries[i + 1].name.as_slice()) {
            assert(!lex_le(es[i as int].name, es[i + 1].name));
            return false;
        }
        proof {
            assert forall|a: int, b: int| 0 <= a < b <= i + 1 implies lex_le(
                #[trigger] es[a].name,
                #[trigger] es[b].name,
            ) by {
                if b == i + 1 && a < i {
                    lemma_lex_trans(es[a].name, es[i as int].name, es[b].name, 0);
                }
            }
        }
        i += 1;
    }
    true
}

/// The positions of the entries in the order of their names, entries of one name in the
/// order in which they stand.
pub fn sort_order(entries: &[TreeEntry]) -> (order: Vec<usize>)
    ensures
        order@.len() == entries@.len(),
        forall|k: int| 0 <= k < order@.len() ==> #[trigger] order@[k] < entries@.len(),
        pick(views(entries@), order@) == sort_by_name(views(entries@)),
{
    let ghost es = views(entries@);
    let mut order: Vec<usize> = Vec::new();
    let mut i: usize = 0;
    assert(pick(es, order@) =~= sort_by_name(es.take(0)));
    while i < entries.len()
        invariant
            i <= entries.len(),
            es == views(entries@),
            order@.len() == i,
            forall|k: int| 0 <= k < order@.len() ==> #[trigger] order@[k] < i,
            pick(es, order@) == sort_by_name(es.take(i as int)),
        decreases entries.len() - i,
    {
        let ghost front = pick(es, order@);
        let mut p: usize = order.len();
        while p > 0 && !name_le(entries[order[p - 1]].name.as_slice(), entries[i].name.as_slice())
            invariant
                p <= order@.len(),
                i < entries.len(),
                es == views(entries@),
                front == pick(es, order@),
                forall|k: int| 0 <= k < order@.len() ==> #[trigger] order@[k] < i,
                forall|k: int|
                    p <= k < front.len() ==> !lex_le((#[trigger] front[k]).name, es[i as int].name),
            decreases p,
        {
            p -= 1;
        }
        proof {
            lemma_insert_pos_is(front, es[i as int].name, p as int);
            assert(es.take(i + 1).drop_last() =~= es.take(i as int));
            assert(es.take(i + 1).last() == es[i as int]);
        }
        order.insert(p, i);
        assert(pick(es, order@) =~= front.insert(p as int, es[i as int]));
        i += 1;
    }
    assert(es.take(entries.len() as int) =~= es);
    order
}

/// Appends the bytes of the entries, in the order of their names, to `out`.
pub fn write_entries(entries: &[TreeEntry], out: &mut Vec<u8>)
    ensures
        final(out)@ == old(out)@ + entries_bytes(sort_by_name(views(entries@))),
{
    let ghost sorted = sort_by_name(views(entries@));
    let order: Vec<usize> = sort_order(entries);
    let mut k: usize = 0;
    assert(entries_bytes(sorted.take(0)) =~= Seq::<u8>::empty());
    assert(out@ =~= old(out)@ + entries_bytes(sorted.take(0)));
    while k < order.len()
        invariant
            k <= order@.len(),
            order@.len() == entries@.len(),
            forall|j: int| 0 <= j < order@.len() ==> #[trigger] order@[j] < entries@.len(),
            sorted == pick(views(entries@), order@),
            out@ == old(out)@ + entries_bytes(sorted.take(k as int)),
        decreases order@.len() - k,
    {
        entries[order[k]].write(out);
        proof {
            assert(sorted.take(k + 1) =~= sorted.take(k as int).push(sorted[k as int]));
            lemma_entries_bytes_push(sorted.take(k as int), sorted[k as int]);
            assert(out@ =~= old(out)@ + entries_bytes(sorted.take(k + 1)));
        }
        k += 1;
    }
    assert(sorted.take(order@.len() as int) =~= sorted);
}

/// Reads the entries that are laid out in `body`.
pub fn read_entries(body: &[u8]) -> (r: Result<Vec<TreeEntry>, BodyFault>)
    ensures
        match r {
            Ok(entries) => parse_entries(body@, 0) == Ok::<Seq<EntryView>, BodyFault>(
                views(entries@),
            ),
            Err(fault) => parse_entries(body@, 0) == Err::<Seq<EntryView>, BodyFault>(fault),
        },
{
    let mut entries: Vec<TreeEntry> = Vec::new();
    let mut pos: usize = 0;
    let end: usize = body.len();
    assert(Seq::<EntryView>::empty() + parse_entries(body@, 0)->Ok_0 =~= parse_entries(
        body@,
        0,
    )->Ok_0);
    assert(views(entries@) =~= Seq::<EntryView>::empty());
    while pos < end
        invariant
            pos <= end == body@.len(),
            match parse_entries(body@, pos as int) {
                Ok(rest) => parse_entries(body@, 0) == Ok::<Seq<EntryView>, BodyFault>(
                    views(entries@) + rest,
                ),
                Err(fault) => parse_entries(body@, 0) == Err::<Seq<EntryView>, BodyFault>(fault),
            },
        decreases end - pos,
    {
        let sp: usize = find(body, SP, pos, end);
        if sp >= end {
            return Err(BodyFault::UnterminatedMode);
        }
        let nul: usize = find(body, NUL, sp + 1, end);
        if nul >= end {
            return Err(BodyFault::UnterminatedName);
        }
        if end - nul - 1 < 20 {
            return Err(BodyFault::TruncatedId);
        }
        let entry = TreeEntry {
            mode: copy_range(body, pos, sp),
            name: copy_range(body, sp + 1, nul),
            id: ObjectId::from_slice(body, nul + 1),
        };
        proof {
            let ghost before = views(entries@);
            match parse_entries(body@, nul + 21) {
                Ok(rest) => {
                    assert(before + (seq![entry@] + rest) =~= before.push(entry@) + rest);
                },
                Err(_) => {},
            }
            assert(views(entries@.push(entry)) =~= before.push(entry@));
        }
        entries.push(entry);
        pos = nul + 21;
    }
    assert(views(entries@) + Seq::<EntryView>::empty() =~= views(entries@));
    Ok(entries)
}

/// Reads the entries of a tree's body, which must stand in the order of their names.
pub fn read_tree(body: &[u8]) -> (r: Result<Vec<TreeEntry>, BodyFault>)
    ensures
        match r {
            Ok(entries) => parse_tree(body@) == Ok::<Seq<EntryView>, BodyFault>(views(entries@)),
            Err(fault) => parse_tree(body@) == Err::<Seq<EntryView>, BodyFault>(fault),
        },
{
    match read_entries(body) {
        Ok(entries) => {
            if is_sorted(entries.as_slice()) {
                Ok(entries)
            } else {
                Err(BodyFault::UnsortedEntries)
            }
        },
        Err(fault) => Err(fault),
    }
}

} // verus!
