//! The entries of a directory, as they stand in its stream.

use crate::bytes::{
    copy_range, get_le, law_le_round_trip, le_bytes, le_value, lemma_le_bytes_len,
    lemma_pow256_monotone, lemma_pow256_values, pow256, push_le, same_bytes,
};
use crate::names::{
    comes_before, law_names_ordered, law_order_transitive, lemma_utf8_split, name_less, names_dir,
    utf8_text, SLASH,
};
use crate::types::{DirEntry, EntryType, SfsError};
use vstd::prelude::*;
use vstd::utf8::{decode_utf8, valid_utf8};

verus! {

/// One entry: the number of a stream, and its name. The name of a directory
/// ends in a slash.
#[verifier::ext_equal]
pub struct Entry {
    pub id: u64,
    pub name: Seq<u8>,
}

/// One entry of a directory.
#[derive(Debug)]
pub struct StreamEntry {
    pub id: u64,
    pub name: Vec<u8>,
}

impl View for StreamEntry {
    type V = Entry;

    open spec fn view(&self) -> Entry {
        Entry { id: self.id, name: self.name@ }
    }
}

/// The entries of a list.
pub open spec fn entry_views(v: Seq<StreamEntry>) -> Seq<Entry> {
    Seq::new(v.len(), |i: int| v[i]@)
}

/// The bytes of an entry: its length, the number of the stream in `w` bytes,
/// and the name. The length has two bytes and wraps around where it has no
/// room.
pub open spec fn entry_bytes(e: Entry, w: nat) -> Seq<u8> {
    le_bytes(((2 + w + e.name.len()) % 65536) as nat, 2) + le_bytes(e.id as nat, w) + e.name
}

/// The bytes of a list of entries, one behind the other.
pub open spec fn dir_bytes(es: Seq<Entry>, w: nat) -> Seq<u8>
    decreases es.len(),
{
    if es.len() == 0 {
        Seq::empty()
    } else {
        dir_bytes(es.drop_last(), w) + entry_bytes(es.last(), w)
    }
}

/// The entries that stand in `data`; none where the bytes are not those of a
/// list of entries.
pub open spec fn parsed(data: Seq<u8>, w: nat) -> Option<Seq<Entry>>
    decreases data.len(),
{
    if data.len() == 0 {
        Some(Seq::empty())
    } else if data.len() < 2 {
        None
    } else {
        let length = le_value(data.subrange(0, 2));
        if length < 2 + w || length > data.len() {
            None
        } else {
            let name = data.subrange(2 + w as int, length as int);
            match parsed(data.skip(length as int), w) {
                Some(rest) => if valid_utf8(name) {
                    Some(seq![Entry { id: le_value(data.subrange(2, 2 + w as int)) as u64, name }] + rest)
                } else {
                    None
                },
                None => None,
            }
        }
    }
}

/// The number of the first entry of that name.
pub open spec fn find(es: Seq<Entry>, name: Seq<u8>) -> Option<u64>
    decreases es.len(),
{
    if es.len() == 0 {
        None
    } else if es[0].name == name {
        Some(es[0].id)
    } else {
        find(es.skip(1), name)
    }
}

/// The entries but for those of that name.
pub open spec fn without(es: Seq<Entry>, name: Seq<u8>) -> Seq<Entry>
    decreases es.len(),
{
    if es.len() == 0 {
        Seq::empty()
    } else if es.last().name == name {
        without(es.drop_last(), name)
    } else {
        without(es.drop_last(), name).push(es.last())
    }
}

/// The entry can be written down and read back.
pub open spec fn entry_fits(e: Entry, w: nat) -> bool {
    &&& 2 + w + e.name.len() < 65536
    &&& e.id < pow256(w)
    &&& valid_utf8(e.name)
}

// ---------------------------------------------------------------------------
// Reading and writing
// ---------------------------------------------------------------------------

/// Writes one entry down, behind what `buf` holds.
pub(crate) fn serialize_entry(buf: &mut Vec<u8>, id: u64, name: &[u8], width: u8)
    requires
        width <= 8,
    ensures
        final(buf)@ == old(buf)@ + entry_bytes(Entry { id, name: name@ }, width as nat),
{
    let ghost b0 = buf@;
    let n: usize = name.len();
    // The length modulo 65536, computed without leaving the range of a number.
    let length: u64 = ((n as u64) % 65536 + 2 + width as u64) % 65536;
    push_le(buf, length, 2);
    push_le(buf, id, width as usize);
    let ghost head = buf@;
    let mut i: usize = 0;
    proof {
        assert(buf@ =~= head + name@.take(0));
    }
    while i < n
        invariant
            n == name@.len(),
            i <= n,
            buf@ == head + name@.take(i as int),
        decreases n - i,
    {
        buf.push(name[i]);
        i = i + 1;
        proof {
            assert(buf@ =~= head + name@.take(i as int));
        }
    }
    proof {
        assert(name@.take(n as int) =~= name@);
        assert(length == (2 + width + n) % 65536);
        assert(buf@ =~= b0 + entry_bytes(Entry { id, name: name@ }, width as nat));
    }
}

/// Writes a list of entries down.
pub(crate) fn serialize_entries(entries: &Vec<StreamEntry>, width: u8) -> (buf: Vec<u8>)
    requires
        width <= 8,
    ensures
        buf@ == dir_bytes(entry_views(entries@), width as nat),
{
    let ghost es = entry_views(entries@);
    let mut buf: Vec<u8> = Vec::new();
    let mut i: usize = 0;
    proof {
        assert(es.take(0) =~= Seq::<Entry>::empty());
    }
    while i < entries.len()
        invariant
            width <= 8,
            es == entry_views(entries@),
            i <= entries@.len(),
            buf@ == dir_bytes(es.take(i as int), width as nat),
        decreases entries@.len() - i,
    {
        serialize_entry(&mut buf, entries[i].id, entries[i].name.as_slice(), width);
        proof {
            let more = es.take(i + 1);
            assert(more.drop_last() =~= es.take(i as int));
            assert(more.last() == entries@[i as int]@);
        }
        i = i + 1;
    }
    proof {
        assert(es.take(entries@.len() as int) =~= es);
    }
    buf
}

/// Reads the entries of a directory.
pub(crate) fn parse_entries(data: &[u8], width: u8) -> (r: Result<Vec<StreamEntry>, SfsError>)
    requires
        width <= 8,
    ensures
        r is Ok <==> parsed(data@, width as nat) is Some,
        r matches Ok(entries) ==> entry_views(entries@) == parsed(data@, width as nat).unwrap(),
        r matches Err(e) ==> e is IoError,
{
    let ghost w = width as nat;
    let len: usize = data.len();
    let mut entries: Vec<StreamEntry> = Vec::new();
    let mut pos: usize = 0;
    proof {
        assert(data@.skip(0) =~= data@);
        lemma_pow256_values();
    }
    while pos < len
        invariant
            len == data@.len(),
            pos <= len,
            width <= 8,
            w == width,
            pow256(2) == 65536,
            match parsed(data@.skip(pos as int), w) {
                Some(rest) => parsed(data@, w) == Some(entry_views(entries@) + rest),
                None => parsed(data@, w) is None,
            },
        decreases len - pos,
    {
        let ghost here = data@.skip(pos as int);
        if len - pos < 2 {
            return Err(
                SfsError::IoError("truncated entry length in directory stream".to_owned()),
            );
        }
        let length: usize = get_le(data, pos, 2) as usize;
        proof {
            assert(here.subrange(0, 2) =~= data@.subrange(pos as int, pos + 2));
        }
        if length < 2 + width as usize {
            return Err(SfsError::IoError("invalid entry length in directory stream".to_owned()));
        }
        if length > len - pos {
            return Err(SfsError::IoError("truncated entry in directory stream".to_owned()));
        }
        let id: u64 = get_le(data, pos + 2, width as usize);
        let name: Vec<u8> = copy_range(data, pos + 2 + width as usize, pos + length);
        proof {
            assert(here.subrange(2, 2 + w as int) =~= data@.subrange(pos + 2, pos + 2 + w));
            assert(here.subrange(2 + w as int, length as int) =~= name@);
            assert(here.skip(length as int) =~= data@.skip(pos + length));
        }
        if utf8_text(name.as_slice()).is_none() {
            return Err(SfsError::IoError("invalid UTF-8 in entry name".to_owned()));
        }
        let ghost before = entries@;
        entries.push(StreamEntry { id, name });
        proof {
            let e = entries@.last()@;
            assert(entry_views(entries@) =~= entry_views(before).push(e));
            match parsed(data@.skip(pos + length), w) {
                Some(rest) => {
                    assert(entry_views(before) + (seq![e] + rest) =~= entry_views(entries@) + rest);
                },
                None => {},
            }
        }
        pos = pos + length;
    }
    proof {
        assert(data@.skip(pos as int) =~= Seq::<u8>::empty());
        assert(entry_views(entries@) + Seq::<Entry>::empty() =~= entry_views(entries@));
    }
    Ok(entries)
}

/// Finds the first entry of that name.
pub(crate) fn find_entry(entries: &Vec<StreamEntry>, name: &[u8]) -> (found: Option<u64>)
    ensures
        found == find(entry_views(entries@), name@),
{
    let ghost es = entry_views(entries@);
    let mut i: usize = 0;
    proof {
        assert(es.skip(0) =~= es);
    }
    while i < entries.len()
        invariant
            es == entry_views(entries@),
            i <= entries@.len(),
            find(es, name@) == find(es.skip(i as int), name@),
        decreases entries@.len() - i,
    {
        proof {
            assert(es.skip(i as int)[0] == entries@[i as int]@);
            assert(es.skip(i as int).skip(1) =~= es.skip(i + 1));
        }
        if same_bytes(entries[i].name.as_slice(), name) {
            return Some(entries[i].id);
        }
        i = i + 1;
    }
    None
}

/// The entries but for those of that name.
pub(crate) fn remove_entries(entries: Vec<StreamEntry>, name: &[u8]) -> (kept: Vec<StreamEntry>)
    ensures
        entry_views(kept@) == without(entry_views(entries@), name@),
{
    let ghost es = entry_views(entries@);
    let mut kept: Vec<StreamEntry> = Vec::new();
    let mut i: usize = 0;
    proof {
        assert(es.take(0) =~= Seq::<Entry>::empty());
        assert(entry_views(kept@) =~= Seq::<Entry>::empty());
    }
    while i < entries.len()
        invariant
            es == entry_views(entries@),
            i <= entries@.len(),
            entry_views(kept@) == without(es.take(i as int), name@),
        decreases entries@.len() - i,
    {
        proof {
            let more = es.take(i + 1);
            assert(more.drop_last() =~= es.take(i as int));
            assert(more.last() == entries@[i as int]@);
        }
        if !same_bytes(entries[i].name.as_slice(), name) {
            let ghost before = kept@;
            let copy: Vec<u8> = copy_range(
                entries[i].name.as_slice(),
                0,
                entries[i].name.len(),
            );
            kept.push(StreamEntry { id: entries[i].id, name: copy });
            proof {
                assert(copy@ =~= entries@[i as int].name@);
                assert(entry_views(kept@) =~= entry_views(before).push(entries@[i as int]@));
            }
        }
        i = i + 1;
    }
    proof {
        assert(es.take(entries@.len() as int) =~= es);
    }
    kept
}

// ---------------------------------------------------------------------------
// Listing
// ---------------------------------------------------------------------------

/// One line of a listing.
#[verifier::ext_equal]
pub struct Listed {
    pub name: Seq<u8>,
    pub entry_type: EntryType,
}

/// How an entry is listed: a directory without the slash behind its name.
pub open spec fn listed(e: Entry) -> Listed {
    if names_dir(e.name) {
        Listed { name: e.name.drop_last(), entry_type: EntryType::Directory }
    } else {
        Listed { name: e.name, entry_type: EntryType::Stream }
    }
}

/// `x` put into a sorted listing, behind what does not come after it.
pub open spec fn inserted(list: Seq<Listed>, x: Listed) -> Seq<Listed>
    decreases list.len(),
{
    if list.len() == 0 {
        seq![x]
    } else if name_less(x.name, list.last().name) {
        inserted(list.drop_last(), x).push(list.last())
    } else {
        list.push(x)
    }
}

/// The listing of a directory, sorted by name.
pub open spec fn listing(es: Seq<Entry>) -> Seq<Listed>
    decreases es.len(),
{
    if es.len() == 0 {
        Seq::empty()
    } else {
        inserted(listing(es.drop_last()), listed(es.last()))
    }
}

/// A list sorted by name.
pub open spec fn sorted(list: Seq<Listed>) -> bool {
    forall|i: int, j: int|
        #![trigger list[i], list[j]]
        0 <= i < j < list.len() ==> !name_less(list[j].name, list[i].name)
}

proof fn lemma_inserted(list: Seq<Listed>, x: Listed)
    requires
        sorted(list),
    ensures
        sorted(inserted(list, x)),
        inserted(list, x).to_multiset() == list.to_multiset().insert(x),
        inserted(list, x).len() == list.len() + 1,
        forall|y: Listed| #[trigger]
            inserted(list, x).contains(y) ==> y == x || list.contains(y),
    decreases list.len(),
{
    broadcast use vstd::seq_lib::group_to_multiset_ensures;

    if list.len() == 0 {
        assert(seq![x] =~= list.push(x));
        assert(seq![x].to_multiset() =~= list.to_multiset().insert(x));
    } else if name_less(x.name, list.last().name) {
        let less = list.drop_last();
        let last = list.last();
        lemma_inserted(less, x);
        let more = inserted(less, x);
        assert(list =~= less.push(last));
        assert(more.push(last).to_multiset() =~= list.to_multiset().insert(x));
        assert forall|i: int, j: int|
            #![trigger more.push(last)[i], more.push(last)[j]]
            0 <= i < j < more.push(last).len() implies !name_less(
            more.push(last)[j].name,
            more.push(last)[i].name,
        ) by {
            if j == more.len() {
                let y = more[i];
                assert(more.contains(y));
                if y == x {
                    law_names_ordered(x.name, last.name);
                } else {
                    let k = choose|k: int| 0 <= k < less.len() && less[k] == y;
                    assert(list[k] == y);
                }
            }
        }
        assert forall|y: Listed| #[trigger] more.push(last).contains(y) implies y == x
            || list.contains(y) by {
            let k = choose|k: int| 0 <= k < more.push(last).len() && more.push(last)[k] == y;
            if k < more.len() {
                assert(more.contains(y));
                if y != x {
                    let l = choose|l: int| 0 <= l < less.len() && less[l] == y;
                    assert(list[l] == y);
                }
            } else {
                assert(list[list.len() - 1] == y);
            }
        }
    } else {
        let n = list.len() as int;
        assert forall|i: int, j: int|
            #![trigger list.push(x)[i], list.push(x)[j]]
            0 <= i < j < list.push(x).len() implies !name_less(
            list.push(x)[j].name,
            list.push(x)[i].name,
        ) by {
            if j == n && i < n - 1 {
                let a = list[i].name;
                let b = list[n - 1].name;
                assert(!name_less(b, a));
                if name_less(x.name, a) {
                    law_names_ordered(a, b);
                    if a != b {
                        law_order_transitive(x.name, a, b);
                    }
                }
            }
        }
        assert forall|y: Listed| #[trigger] list.push(x).contains(y) implies y == x || list.contains(
            y,
        ) by {
            let k = choose|k: int| 0 <= k < list.push(x).len() && list.push(x)[k] == y;
            if k < n {
                assert(list[k] == y);
            }
        }
    }
}

/// A listing is sorted by name, and names every entry once.
pub proof fn law_listing_sorted(es: Seq<Entry>)
    ensures
        sorted(listing(es)),
        listing(es).to_multiset() == es.map_values(|e: Entry| listed(e)).to_multiset(),
    decreases es.len(),
{
    broadcast use vstd::seq_lib::group_to_multiset_ensures;

    let f = |e: Entry| listed(e);
    if es.len() == 0 {
        assert(es.map_values(f) =~= Seq::<Listed>::empty());
        assert(listing(es) =~= Seq::<Listed>::empty());
    } else {
        let less = es.drop_last();
        law_listing_sorted(less);
        lemma_inserted(listing(less), listed(es.last()));
        assert(es.map_values(f) =~= less.map_values(f).push(listed(es.last())));
    }
}

/// A listing has one line for every entry.
pub proof fn lemma_listing_len(es: Seq<Entry>)
    ensures
        listing(es).len() == es.len(),
    decreases es.len(),
{
    if es.len() > 0 {
        let less = es.drop_last();
        lemma_listing_len(less);
        law_listing_sorted(less);
        lemma_inserted(listing(less), listed(es.last()));
    }
}

/// A line of a listing, before its name is turned into text.
struct Line {
    name: Vec<u8>,
    entry_type: EntryType,
}

spec fn line_views(v: Seq<Line>) -> Seq<Listed> {
    Seq::new(v.len(), |i: int| Listed { name: v[i].name@, entry_type: v[i].entry_type })
}

/// Puts a line into a sorted list.
fn insert_line(lines: &mut Vec<Line>, line: Line)
    ensures
        line_views(final(lines)@) == inserted(
            line_views(old(lines)@),
            Listed { name: line.name@, entry_type: line.entry_type },
        ),
{
    let ghost all = line_views(lines@);
    let ghost x = Listed { name: line.name@, entry_type: line.entry_type };
    let mut at: usize = lines.len();
    proof {
        assert(all.take(at as int) =~= all);
        assert(inserted(all.take(at as int), x) + all.skip(at as int) =~= inserted(all, x));
    }
    while at > 0 && comes_before(line.name.as_slice(), lines[at - 1].name.as_slice())
        invariant
            at <= lines@.len(),
            all == line_views(lines@),
            x == (Listed { name: line.name@, entry_type: line.entry_type }),
            inserted(all.take(at as int), x) + all.skip(at as int) == inserted(all, x),
        decreases at,
    {
        proof {
            let part = all.take(at as int);
            assert(part.last() == all[at - 1]);
            assert(part.drop_last() =~= all.take(at - 1));
            assert(inserted(all.take(at - 1), x) + all.skip(at - 1) =~= inserted(part, x)
                + all.skip(at as int));
        }
        at = at - 1;
    }
    proof {
        if at > 0 {
            assert(all.take(at as int).last() == all[at - 1]);
        }
        assert(inserted(all.take(at as int), x) =~= all.take(at as int).push(x));
    }
    lines.insert(at, line);
    proof {
        assert(line_views(lines@) =~= all.take(at as int).push(x) + all.skip(at as int));
    }
}

/// Lists the entries of a directory, sorted by name.
pub(crate) fn list_entries(entries: &Vec<StreamEntry>) -> (list: Vec<DirEntry>)
    requires
        forall|i: int| 0 <= i < entries@.len() ==> valid_utf8(#[trigger] entries@[i].name@),
    ensures
        list@.len() == entries@.len(),
        forall|i: int|
            0 <= i < list@.len() ==> {
                let line = listing(entry_views(entries@))[i];
                &&& (#[trigger] list@[i]).name@ == decode_utf8(line.name)
                &&& list@[i].entry_type == line.entry_type
            },
{
    let ghost es = entry_views(entries@);
    let mut lines: Vec<Line> = Vec::new();
    let mut i: usize = 0;
    proof {
        assert(es.take(0) =~= Seq::<Entry>::empty());
        assert(line_views(lines@) =~= Seq::<Listed>::empty());
    }
    while i < entries.len()
        invariant
            es == entry_views(entries@),
            i <= entries@.len(),
            forall|j: int| 0 <= j < entries@.len() ==> valid_utf8(#[trigger] entries@[j].name@),
            line_views(lines@) == listing(es.take(i as int)),
            lines@.len() == i,
            forall|j: int| 0 <= j < lines@.len() ==> valid_utf8(#[trigger] lines@[j].name@),
        decreases entries@.len() - i,
    {
        let ghost before = lines@;
        let entry: &StreamEntry = &entries[i];
        let n: usize = entry.name.len();
        let line: Line = if n > 0 && entry.name[n - 1] == SLASH {
            proof {
                let name = entry.name@;
                assert(name =~= name.drop_last() + seq![SLASH] + Seq::<u8>::empty());
                lemma_utf8_split(name.drop_last(), Seq::<u8>::empty());
            }
            let name: Vec<u8> = copy_range(entry.name.as_slice(), 0, n - 1);
            assert(name@ =~= entry.name@.drop_last());
            Line { name, entry_type: EntryType::Directory }
        } else {
            let name: Vec<u8> = copy_range(entry.name.as_slice(), 0, n);
            assert(name@ =~= entry.name@);
            Line { name, entry_type: EntryType::Stream }
        };
        let ghost x = Listed { name: line.name@, entry_type: line.entry_type };
        insert_line(&mut lines, line);
        proof {
            let more = es.take(i + 1);
            assert(more.drop_last() =~= es.take(i as int));
            assert(more.last() == entries@[i as int]@);
            law_listing_sorted(es.take(i as int));
            lemma_inserted(line_views(before), x);
            assert forall|j: int| 0 <= j < lines@.len() implies valid_utf8(
                #[trigger] lines@[j].name@,
            ) by {
                let y = line_views(lines@)[j];
                assert(line_views(lines@).contains(y));
                if y != x {
                    let k = choose|k: int| 0 <= k < line_views(before).len() && line_views(before)[k] == y;
                    assert(before[k].name@ == y.name);
                }
            }
            assert(line_views(lines@).len() == lines@.len());
        }
        i = i + 1;
    }
    proof {
        assert(es.take(entries@.len() as int) =~= es);
    }
    let mut list: Vec<DirEntry> = Vec::new();
    let mut k: usize = 0;
    while k < lines.len()
        invariant
            k <= lines@.len(),
            list@.len() == k,
            forall|j: int| 0 <= j < lines@.len() ==> valid_utf8(#[trigger] lines@[j].name@),
            line_views(lines@) == listing(es),
            forall|j: int|
                0 <= j < list@.len() ==> {
                    let line = listing(es)[j];
                    &&& (#[trigger] list@[j]).name@ == decode_utf8(line.name)
                    &&& list@[j].entry_type == line.entry_type
                },
        decreases lines@.len() - k,
    {
        proof {
            assert(valid_utf8(lines@[k as int].name@));
            assert(line_views(lines@)[k as int].name == lines@[k as int].name@);
        }
        let name: String = match utf8_text(lines[k].name.as_slice()) {
            Some(name) => name,
            None => String::new(),
        };
        list.push(DirEntry { name, entry_type: lines[k].entry_type });
        k = k + 1;
    }
    list
}

// ---------------------------------------------------------------------------
// Laws
// ---------------------------------------------------------------------------

/// An entry written behind a directory's bytes is read back as its last.
pub proof fn law_entry_appended(data: Seq<u8>, e: Entry, w: nat)
    requires
        w <= 8,
        parsed(data, w) is Some,
        entry_fits(e, w),
    ensures
        parsed(data + entry_bytes(e, w), w) == Some(parsed(data, w).unwrap().push(e)),
    decreases data.len(),
{
    let bytes = entry_bytes(e, w);
    let n = 2 + w + e.name.len();
    lemma_pow256_values();
    lemma_pow256_monotone(w, 8);
    lemma_le_bytes_len(n, 2);
    lemma_le_bytes_len(e.id as nat, w);
    law_le_round_trip(n, 2);
    law_le_round_trip(e.id as nat, w);
    if data.len() == 0 {
        assert(data + bytes =~= bytes);
        assert(bytes.subrange(0, 2) =~= le_bytes(n, 2));
        assert(bytes.subrange(2, 2 + w as int) =~= le_bytes(e.id as nat, w));
        assert(bytes.subrange(2 + w as int, n as int) =~= e.name);
        assert(bytes.skip(n as int) =~= Seq::<u8>::empty());
        assert(parsed(Seq::<u8>::empty(), w) == Some(Seq::<Entry>::empty()));
        assert(parsed(bytes, w) == Some(seq![e] + Seq::<Entry>::empty()));
        assert(seq![e] + Seq::<Entry>::empty() =~= Seq::<Entry>::empty().push(e));
    } else {
        let all = data + bytes;
        let length = le_value(data.subrange(0, 2)) as int;
        assert(all.subrange(0, 2) =~= data.subrange(0, 2));
        assert(all.subrange(2, 2 + w as int) =~= data.subrange(2, 2 + w as int));
        assert(all.subrange(2 + w as int, length) =~= data.subrange(2 + w as int, length));
        assert(all.skip(length) =~= data.skip(length) + bytes);
        law_entry_appended(data.skip(length), e, w);
        let rest = parsed(data.skip(length), w).unwrap();
        let first = Entry {
            id: le_value(data.subrange(2, 2 + w as int)) as u64,
            name: data.subrange(2 + w as int, length),
        };
        assert(seq![first] + rest.push(e) =~= (seq![first] + rest).push(e));
    }
}

/// A list of entries that was written down is read back as it was.
pub proof fn law_entries_round_trip(es: Seq<Entry>, w: nat)
    requires
        w <= 8,
        forall|i: int| 0 <= i < es.len() ==> entry_fits(#[trigger] es[i], w),
    ensures
        parsed(dir_bytes(es, w), w) == Some(es),
    decreases es.len(),
{
    if es.len() == 0 {
        assert(es =~= Seq::<Entry>::empty());
    } else {
        let less = es.drop_last();
        assert forall|i: int| 0 <= i < less.len() implies entry_fits(#[trigger] less[i], w) by {
            assert(es[i] == less[i]);
        }
        law_entries_round_trip(less, w);
        law_entry_appended(dir_bytes(less, w), es.last(), w);
        assert(less.push(es.last()) =~= es);
    }
}

/// What is read from a directory can be written down and read back.
pub proof fn lemma_parsed_fits(data: Seq<u8>, w: nat)
    requires
        w <= 8,
        parsed(data, w) is Some,
    ensures
        forall|i: int|
            0 <= i < parsed(data, w).unwrap().len() ==> entry_fits(
                #[trigger] parsed(data, w).unwrap()[i],
                w,
            ),
    decreases data.len(),
{
    if data.len() > 0 {
        let length = le_value(data.subrange(0, 2)) as int;
        lemma_pow256_values();
        lemma_pow256_monotone(w, 8);
        crate::bytes::law_le_bytes_of_value(data.subrange(0, 2));
        crate::bytes::law_le_bytes_of_value(data.subrange(2, 2 + w as int));
        lemma_parsed_fits(data.skip(length), w);
        let rest = parsed(data.skip(length), w).unwrap();
        let all = parsed(data, w).unwrap();
        assert forall|i: int| 0 <= i < all.len() implies entry_fits(#[trigger] all[i], w) by {
            if i > 0 {
                assert(all[i] == rest[i - 1]);
            }
        }
    }
}

/// The bytes of two lists of entries, one behind the other, are those of the lists
/// one behind the other; an empty list has none, and one entry has its own.
pub proof fn law_entries_joined(a: Seq<Entry>, b: Seq<Entry>, e: Entry, w: nat)
    ensures
        dir_bytes(a + b, w) == dir_bytes(a, w) + dir_bytes(b, w),
        dir_bytes(Seq::empty(), w) == Seq::<u8>::empty(),
        dir_bytes(seq![e], w) == entry_bytes(e, w),
    decreases b.len(),
{
    assert(seq![e].drop_last() =~= Seq::<Entry>::empty());
    assert(dir_bytes(Seq::empty(), w) =~= Seq::<u8>::empty());
    assert(dir_bytes(seq![e], w) =~= entry_bytes(e, w));
    if b.len() == 0 {
        assert(a + b =~= a);
        assert(dir_bytes(a, w) + dir_bytes(b, w) =~= dir_bytes(a, w));
    } else {
        law_entries_joined(a, b.drop_last(), e, w);
        assert((a + b).drop_last() =~= a + b.drop_last());
        assert((a + b).last() == b.last());
        assert(dir_bytes(a + b, w) =~= dir_bytes(a, w) + dir_bytes(b, w));
    }
}

/// What was read from bytes writes down to the same bytes, so every byte counts.
/// Bytes are read if and only if they are those of a list of entries that can be
/// written down.
pub proof fn law_parsed_written(data: Seq<u8>, w: nat)
    requires
        w <= 8,
    ensures
        parsed(data, w) matches Some(es) ==> dir_bytes(es, w) == data,
        parsed(data, w) is Some <==> exists|es: Seq<Entry>| #[trigger]
            dir_bytes(es, w) == data && forall|i: int|
                0 <= i < es.len() ==> entry_fits(#[trigger] es[i], w),
{
    if parsed(data, w) is Some {
        lemma_parsed_written(data, w);
        lemma_parsed_fits(data, w);
        let es = parsed(data, w).unwrap();
        assert(dir_bytes(es, w) == data);
    }
    if exists|es: Seq<Entry>| #[trigger]
        dir_bytes(es, w) == data && forall|i: int|
            0 <= i < es.len() ==> entry_fits(#[trigger] es[i], w) {
        let es = choose|es: Seq<Entry>| #[trigger]
            dir_bytes(es, w) == data && forall|i: int|
                0 <= i < es.len() ==> entry_fits(#[trigger] es[i], w);
        law_entries_round_trip(es, w);
    }
}

proof fn lemma_parsed_written(data: Seq<u8>, w: nat)
    requires
        w <= 8,
        parsed(data, w) is Some,
    ensures
        dir_bytes(parsed(data, w).unwrap(), w) == data,
    decreases data.len(),
{
    if data.len() == 0 {
        assert(dir_bytes(Seq::empty(), w) =~= data);
    } else {
        let length = le_value(data.subrange(0, 2)) as int;
        lemma_pow256_values();
        lemma_pow256_monotone(w, 8);
        crate::bytes::law_le_bytes_of_value(data.subrange(0, 2));
        crate::bytes::law_le_bytes_of_value(data.subrange(2, 2 + w as int));
        let name = data.subrange(2 + w as int, length);
        let e = Entry { id: le_value(data.subrange(2, 2 + w as int)) as u64, name };
        lemma_parsed_written(data.skip(length), w);
        let rest = parsed(data.skip(length), w).unwrap();
        law_entries_joined(seq![e], rest, e, w);
        assert(2 + w + name.len() == length);
        assert(entry_bytes(e, w) =~= data.take(length));
        assert(entry_bytes(e, w) + data.skip(length) =~= data);
    }
}

/// The first entry of a name stays the first when entries of other names go.
pub proof fn law_others_stay(es: Seq<Entry>, gone: Seq<u8>, name: Seq<u8>)
    ensures
        find(without(es, gone), name) == if name == gone {
            None
        } else {
            find(es, name)
        },
        forall|i: int|
            0 <= i < without(es, gone).len() ==> (#[trigger] without(es, gone)[i]).name != gone
                && es.contains(without(es, gone)[i]),
    decreases es.len(),
{
    if es.len() > 0 {
        let less = es.drop_last();
        let last = es.last();
        law_others_stay(less, gone, name);
        lemma_find_pushed(less, last, name);
        assert(es =~= less.push(last));
        lemma_find_pushed(without(less, gone), last, name);
        assert forall|i: int| 0 <= i < without(es, gone).len() implies (#[trigger] without(
            es,
            gone,
        )[i]).name != gone && es.contains(without(es, gone)[i]) by {
            if last.name != gone && i == without(less, gone).len() {
                assert(es[es.len() - 1] == last);
            } else {
                let y = without(less, gone)[i];
                let k = choose|k: int| 0 <= k < less.len() && less[k] == y;
                assert(es[k] == y);
            }
        }
    }
}

/// An entry at the end is found where no entry before it has its name.
pub proof fn lemma_find_pushed(es: Seq<Entry>, e: Entry, name: Seq<u8>)
    ensures
        find(es.push(e), name) == match find(es, name) {
            Some(id) => Some(id),
            None => if e.name == name {
                Some(e.id)
            } else {
                None
            },
        },
    decreases es.len(),
{
    let all = es.push(e);
    if es.len() == 0 {
        assert(all.skip(1) =~= Seq::<Entry>::empty());
        assert(find(Seq::<Entry>::empty(), name) is None);
        assert(all[0] == e);
    } else {
        assert(all.skip(1) =~= es.skip(1).push(e));
        lemma_find_pushed(es.skip(1), e, name);
    }
}

} // verus!
