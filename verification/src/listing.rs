//! Listing a directory of a share: which entries are shown, in what order, and
//! which page of them.

use vstd::prelude::*;
use vstd::slice::slice_subrange;
use vstd::utf8;

use crate::error::{ErrorView, LanFlowError};
use crate::fields;
use crate::ordering;
use crate::outside::hash;
use crate::outside::strings;
use crate::outside::strings::to_lowercase;
use crate::paths;
use crate::text;
use crate::wire::listing::{Entry, EntryView};

verus! {

/// What a name in a file system stands for.
#[derive(Clone, Copy, Debug, PartialEq, Eq, Structural)]
pub enum FileKind {
    File,
    Directory,
    Symlink,
    /// A device, a pipe or a socket.
    Other,
}

/// An entry as the file system gives it.
#[derive(Debug)]
pub struct RawEntry {
    pub name: String,
    pub kind: FileKind,
    pub size: u64,
    pub modified_ms: i64,
}

/// The model of a [`RawEntry`].
#[verifier::ext_equal]
pub struct RawEntryView {
    pub name: Seq<char>,
    pub kind: FileKind,
    pub size: u64,
    pub modified_ms: i64,
}

impl View for RawEntry {
    type V = RawEntryView;

    open spec fn view(&self) -> RawEntryView {
        RawEntryView {
            name: self.name@,
            kind: self.kind,
            size: self.size,
            modified_ms: self.modified_ms,
        }
    }
}

/// Whether `part` occurs in `whole`.
pub open spec fn contains_part(whole: Seq<char>, part: Seq<char>) -> bool {
    exists|i: int|
        0 <= i <= whole.len() - part.len() && #[trigger] whole.subrange(i, i + part.len()) == part
}

/// Whether an entry is shown: it is a file or a directory, and its name holds
/// what was asked for, whatever the case of the letters.
pub open spec fn is_shown(entry: RawEntryView, query: Seq<char>) -> bool {
    &&& entry.kind == FileKind::File || entry.kind == FileKind::Directory
    &&& query.len() == 0 || contains_part(
        strings::lowercase(entry.name),
        strings::lowercase(query),
    )
}

/// A text without the slashes at its end.
pub open spec fn without_slashes(path: Seq<char>) -> Seq<char>
    decreases path.len(),
{
    if path.len() > 0 && path.last() == '/' {
        without_slashes(path.drop_last())
    } else {
        path
    }
}

/// The relative path of an entry of a directory.
pub open spec fn child_path(directory: Seq<char>, name: Seq<char>) -> Seq<char> {
    if directory.len() == 0 {
        name
    } else {
        without_slashes(directory) + seq!['/'] + name
    }
}

/// The identity of what has a relative path: the hash of the path.
pub open spec fn path_id(path: Seq<char>) -> Seq<char> {
    hash::hex(hash::blake3_digest(utf8::encode_utf8(path)), false)
}

/// An entry as it is sent.
pub open spec fn shown_entry(entry: RawEntryView, directory: Seq<char>) -> EntryView {
    EntryView {
        id: path_id(child_path(directory, entry.name)),
        raw_name: utf8::encode_utf8(entry.name),
        display_name: entry.name,
        relative_path: child_path(directory, entry.name),
        is_dir: entry.kind == FileKind::Directory,
        size: if entry.kind == FileKind::File {
            entry.size
        } else {
            0
        },
        modified_ms: entry.modified_ms,
    }
}

/// The entries that are shown, in the order they came in.
pub open spec fn shown(
    items: Seq<RawEntryView>,
    directory: Seq<char>,
    query: Seq<char>,
) -> Seq<EntryView>
    decreases items.len(),
{
    if items.len() == 0 {
        Seq::empty()
    } else {
        let rest = shown(items.drop_last(), directory, query);
        if is_shown(items.last(), query) {
            rest.push(shown_entry(items.last(), directory))
        } else {
            rest
        }
    }
}

/// Symbolic links and special files are never listed: every entry that is
/// shown comes from a file or a directory.
pub proof fn law_only_files_and_directories_are_shown(
    items: Seq<RawEntryView>,
    directory: Seq<char>,
    query: Seq<char>,
    i: int,
)
    requires
        0 <= i < shown(items, directory, query).len(),
    ensures
        exists|k: int|
            0 <= k < items.len() && ((#[trigger] items[k]).kind == FileKind::File || items[k].kind
                == FileKind::Directory) && shown(items, directory, query)[i] == shown_entry(
                items[k],
                directory,
            ),
    decreases items.len(),
{
    let rest = shown(items.drop_last(), directory, query);
    if i < rest.len() {
        law_only_files_and_directories_are_shown(items.drop_last(), directory, query, i);
        let k = choose|k: int|
            0 <= k < items.len() - 1 && ((#[trigger] items.drop_last()[k]).kind == FileKind::File
                || items.drop_last()[k].kind == FileKind::Directory) && rest[i] == shown_entry(
                items.drop_last()[k],
                directory,
            );
        assert(items[k] == items.drop_last()[k]);
    } else {
        assert(items[items.len() - 1] == items.last());
    }
}

/// A text holds another one exactly where it can be written as something,
/// the other one, and something more.
proof fn lemma_contains_part(whole: Seq<char>, part: Seq<char>)
    ensures
        contains_part(whole, part) <==> exists|a: Seq<char>, b: Seq<char>|
            whole == #[trigger] (a + part + b),
{
    if contains_part(whole, part) {
        let i = choose|i: int|
            0 <= i <= whole.len() - part.len() && #[trigger] whole.subrange(i, i + part.len())
                == part;
        let a = whole.take(i);
        let b = whole.skip(i + part.len());
        assert(whole =~= a + whole.subrange(i, i + part.len()) + b);
        assert(whole == a + part + b);
    }
    if exists|a: Seq<char>, b: Seq<char>| whole == #[trigger] (a + part + b) {
        let (a, b) = choose|a: Seq<char>, b: Seq<char>| whole == #[trigger] (a + part + b);
        let i = a.len() as int;
        assert(whole.subrange(i, i + part.len()) =~= part);
    }
}

/// A file or a directory whose name, in small letters, holds what was asked
/// for, in small letters, is listed wherever in the name it stands: at the
/// beginning, inside, or at the end.
pub proof fn law_matching_names_are_shown(
    items: Seq<RawEntryView>,
    directory: Seq<char>,
    query: Seq<char>,
    k: int,
    a: Seq<char>,
    b: Seq<char>,
)
    requires
        0 <= k < items.len(),
        items[k].kind == FileKind::File || items[k].kind == FileKind::Directory,
        strings::lowercase(items[k].name) == a + strings::lowercase(query) + b,
    ensures
        shown(items, directory, query).contains(shown_entry(items[k], directory)),
{
    lemma_contains_part(strings::lowercase(items[k].name), strings::lowercase(query));
    assert(strings::lowercase(items[k].name) == (a + strings::lowercase(query) + b));
    lemma_shown_items(items, directory, query, k);
}

/// Where nothing was asked for, every file and every directory is listed.
pub proof fn law_all_is_shown_without_a_query(
    items: Seq<RawEntryView>,
    directory: Seq<char>,
    k: int,
)
    requires
        0 <= k < items.len(),
        items[k].kind == FileKind::File || items[k].kind == FileKind::Directory,
    ensures
        shown(items, directory, Seq::empty()).contains(shown_entry(items[k], directory)),
{
    lemma_shown_items(items, directory, Seq::empty(), k);
}

proof fn lemma_shown_items(
    items: Seq<RawEntryView>,
    directory: Seq<char>,
    query: Seq<char>,
    k: int,
)
    requires
        0 <= k < items.len(),
        is_shown(items[k], query),
    ensures
        shown(items, directory, query).contains(shown_entry(items[k], directory)),
    decreases items.len(),
{
    let all = shown(items, directory, query);
    let rest = shown(items.drop_last(), directory, query);
    let entry = shown_entry(items[k], directory);
    if k < items.len() - 1 {
        lemma_shown_items(items.drop_last(), directory, query, k);
        let i = rest.index_of(entry);
        assert(all[i] == entry);
    } else {
        assert(all[rest.len() as int] == entry);
    }
}

/// One more thing in a directory is listed behind the others where it is a
/// file or a directory and its name, in small letters, holds what was asked
/// for; else the list stays as it is.
pub proof fn law_only_matching_names_are_shown(
    items: Seq<RawEntryView>,
    item: RawEntryView,
    directory: Seq<char>,
    query: Seq<char>,
)
    ensures
        shown(Seq::empty(), directory, query).len() == 0,
        shown(items.push(item), directory, query) == if (item.kind == FileKind::File || item.kind
            == FileKind::Directory) && (query.len() == 0 || exists|a: Seq<char>, b: Seq<char>|
            strings::lowercase(item.name) == #[trigger] (a + strings::lowercase(query) + b)) {
            shown(items, directory, query).push(shown_entry(item, directory))
        } else {
            shown(items, directory, query)
        },
{
    lemma_contains_part(strings::lowercase(item.name), strings::lowercase(query));
    assert(items.push(item).drop_last() =~= items);
}

/// An entry tells the name, the kind and the time of what is there, the size of
/// a file, and its path below the shared directory: the directory, a slash and
/// the name, where slashes at the end of the directory do not count.
pub proof fn law_entries_tell_what_is_there(entry: RawEntryView, directory: Seq<char>)
    ensures
        shown_entry(entry, directory).display_name == entry.name,
        shown_entry(entry, directory).raw_name == utf8::encode_utf8(entry.name),
        shown_entry(entry, directory).modified_ms == entry.modified_ms,
        shown_entry(entry, directory).is_dir <==> entry.kind == FileKind::Directory,
        entry.kind == FileKind::File ==> shown_entry(entry, directory).size == entry.size,
        entry.kind == FileKind::Directory ==> shown_entry(entry, directory).size == 0,
        directory.len() == 0 ==> shown_entry(entry, directory).relative_path == entry.name,
        directory.len() > 0 && directory.last() != '/' ==> shown_entry(
            entry,
            directory,
        ).relative_path == directory + "/"@ + entry.name,
        directory.len() > 0 ==> shown_entry(entry, directory + "/"@) == shown_entry(
            entry,
            directory,
        ),
{
    reveal_strlit("/");
    assert("/"@ =~= seq!['/']);
    assert((directory + "/"@).drop_last() =~= directory);
}

/// Entries with one path have one identity, wherever they are listed from.
pub proof fn law_entry_identity_is_that_of_the_path(
    a: RawEntryView,
    from: Seq<char>,
    b: RawEntryView,
    to: Seq<char>,
)
    requires
        shown_entry(a, from).relative_path == shown_entry(b, to).relative_path,
    ensures
        shown_entry(a, from).id == shown_entry(b, to).id,
{
}

/// Different paths have one identity only if the hash function gives one hash
/// for two byte strings.
pub proof fn law_identities_tell_paths_apart(path: Seq<char>, other: Seq<char>)
    requires
        path_id(path) == path_id(other),
    ensures
        path == other || exists|a: Seq<u8>, b: Seq<u8>|
            a != b && #[trigger] hash::blake3_digest(a) == #[trigger] hash::blake3_digest(b),
{
    let a = utf8::encode_utf8(path);
    let b = utf8::encode_utf8(other);
    paths::lemma_hex_injective(hash::blake3_digest(a), hash::blake3_digest(b), false);
    assert(hash::blake3_digest(a) == hash::blake3_digest(b));
    if a == b {
        text::lemma_utf8_injective(path, other);
    }
}

/// What entries are sorted by: directories come first, then the name in small
/// letters counts.
pub open spec fn sort_key(entry: EntryView) -> Seq<u8> {
    seq![
        if entry.is_dir {
            0u8
        } else {
            1u8
        },
    ] + utf8::encode_utf8(strings::lowercase(entry.display_name))
}

pub open spec fn sort_keys(entries: Seq<EntryView>) -> Seq<Seq<u8>> {
    entries.map_values(|entry: EntryView| sort_key(entry))
}

/// Entries in a given order.
pub open spec fn arranged(entries: Seq<EntryView>, order: Seq<usize>) -> Seq<EntryView> {
    Seq::new(order.len(), |i: int| entries[order[i] as int])
}

/// At most `limit` items from the position `offset` on.
pub open spec fn page(entries: Seq<EntryView>, offset: nat, limit: nat) -> Seq<EntryView> {
    let from = if offset <= entries.len() {
        offset
    } else {
        entries.len()
    };
    let to = if offset + limit <= entries.len() {
        offset + limit
    } else {
        entries.len()
    };
    entries.subrange(from as int, to as int)
}

/// Whether entries follow a page, of so many.
pub open spec fn more_follow(total: nat, offset: nat, limit: nat) -> bool {
    total > offset + limit
}

/// Whether a page is the one that was asked for.
pub open spec fn is_page(
    result: Seq<EntryView>,
    entries: Seq<EntryView>,
    offset: nat,
    limit: nat,
) -> bool {
    exists|order: Seq<usize>| #[trigger]
        ordering::is_order(sort_keys(entries), order) && result == page(
            arranged(entries, order),
            offset,
            limit,
        )
}

/// A page is fixed by the entries, the offset and the limit.
pub proof fn law_page_is_determined(
    a: Seq<EntryView>,
    b: Seq<EntryView>,
    entries: Seq<EntryView>,
    offset: nat,
    limit: nat,
)
    requires
        is_page(a, entries, offset, limit),
        is_page(b, entries, offset, limit),
    ensures
        a == b,
{
    let x = choose|order: Seq<usize>| #[trigger]
        ordering::is_order(sort_keys(entries), order) && a == page(
            arranged(entries, order),
            offset,
            limit,
        );
    let y = choose|order: Seq<usize>| #[trigger]
        ordering::is_order(sort_keys(entries), order) && b == page(
            arranged(entries, order),
            offset,
            limit,
        );
    ordering::law_order_is_unique(sort_keys(entries), x, y);
}

/// Consecutive pages put together are one longer page: paging loses nothing
/// and repeats nothing.
pub proof fn law_pages_join(entries: Seq<EntryView>, offset: nat, first: nat, second: nat)
    ensures
        page(entries, offset, first) + page(entries, offset + first, second) == page(
            entries,
            offset,
            first + second,
        ),
{
    assert(page(entries, offset, first) + page(entries, offset + first, second) =~= page(
        entries,
        offset,
        first + second,
    ));
}

/// A page holds directories before files, and among each of these the names
/// in the order of a dictionary, whatever the case of the letters.
pub proof fn law_pages_are_sorted(
    result: Seq<EntryView>,
    entries: Seq<EntryView>,
    offset: nat,
    limit: nat,
    i: int,
    j: int,
)
    requires
        is_page(result, entries, offset, limit),
        0 <= i < j < result.len(),
    ensures
        result[j].is_dir ==> result[i].is_dir,
        result[i].is_dir == result[j].is_dir ==> !ordering::lex_lt(
            utf8::encode_utf8(strings::lowercase(result[j].display_name)),
            utf8::encode_utf8(strings::lowercase(result[i].display_name)),
        ),
{
    let keys = sort_keys(entries);
    let order = choose|order: Seq<usize>| #[trigger]
        ordering::is_order(keys, order) && result == page(arranged(entries, order), offset, limit);
    let a = order[offset + i] as int;
    let b = order[offset + j] as int;
    assert(ordering::before(keys, a, b));
    let x = utf8::encode_utf8(strings::lowercase(result[i].display_name));
    let y = utf8::encode_utf8(strings::lowercase(result[j].display_name));
    assert(keys[a] == sort_key(result[i]));
    assert(keys[b] == sort_key(result[j]));
    assert(keys[a].skip(1) =~= x);
    assert(keys[b].skip(1) =~= y);
    assert(keys[a][0] == if result[i].is_dir {
        0u8
    } else {
        1u8
    });
    assert(keys[b][0] == if result[j].is_dir {
        0u8
    } else {
        1u8
    });
    if keys[a][0] == keys[b][0] && ordering::lex_lt(y, x) {
        if ordering::lex_lt(keys[a], keys[b]) {
            ordering::lemma_lex_transitive(y, x, y);
        }
        ordering::lemma_lex_irreflexive(y);
    }
}

/// A page holds as many entries as were asked for, or those that are left, and
/// every one of them is an entry of the directory; a page that reaches the end
/// from the beginning holds them all.
pub proof fn law_pages_hold_the_entries(
    result: Seq<EntryView>,
    entries: Seq<EntryView>,
    offset: nat,
    limit: nat,
    k: int,
)
    requires
        is_page(result, entries, offset, limit),
    ensures
        offset + limit <= entries.len() ==> result.len() == limit,
        offset <= entries.len() < offset + limit ==> result.len() == entries.len() - offset,
        entries.len() < offset ==> result.len() == 0,
        forall|i: int| 0 <= i < result.len() ==> entries.contains(#[trigger] result[i]),
        offset == 0 && limit >= entries.len() && 0 <= k < entries.len() ==> result.contains(
            entries[k],
        ),
{
    let keys = sort_keys(entries);
    let order = choose|order: Seq<usize>| #[trigger]
        ordering::is_order(keys, order) && result == page(arranged(entries, order), offset, limit);
    assert forall|i: int| 0 <= i < result.len() implies entries.contains(#[trigger] result[i]) by {
        let place = order[offset + i] as int;
        assert(result[i] == entries[place]);
    }
    if offset == 0 && limit >= entries.len() && 0 <= k < entries.len() {
        ordering::lemma_order_covers(keys, order, k);
        let i = choose|i: int| 0 <= i < order.len() && #[trigger] order[i] == k;
        assert(result[i] == entries[k]);
    }
}

/// More entries follow a page exactly where the next page is not empty.
pub proof fn law_next_page_has_more(
    next: Seq<EntryView>,
    entries: Seq<EntryView>,
    offset: nat,
    limit: nat,
    count: nat,
)
    requires
        is_page(next, entries, offset + limit, count),
        count > 0,
    ensures
        more_follow(entries.len(), offset, limit) <==> next.len() > 0,
{
    law_pages_hold_the_entries(next, entries, offset + limit, count, 0);
}

fn occurs(whole: &str, part: &str) -> (found: bool)
    ensures
        found == contains_part(whole@, part@),
{
    let text = text::chars_of(whole);
    let pattern = text::chars_of(part);
    if pattern.len() > text.len() {
        return false;
    }
    let total: usize = text.len();
    let last: usize = total - pattern.len();
    let mut i: usize = 0;
    while i <= last
        invariant
            total == text@.len(),
            text@ == whole@,
            pattern@ == part@,
            last == text@.len() - pattern@.len(),
            i <= last + 1,
            forall|j: int|
                0 <= j < i ==> #[trigger] text@.subrange(j, j + pattern@.len()) != pattern@,
        decreases last + 1 - i,
    {
        let mut k: usize = 0;
        while k < pattern.len() && text[i + k] == pattern[k]
            invariant
                i <= last,
                total == text@.len(),
                last == text@.len() - pattern@.len(),
                k <= pattern@.len(),
                forall|j: int| 0 <= j < k ==> text@[i + j] == pattern@[j],
            decreases pattern@.len() - k,
        {
            k += 1;
        }
        if k == pattern.len() {
            assert(text@.subrange(i as int, i + pattern@.len()) =~= pattern@);
            return true;
        }
        assert(text@.subrange(i as int, i + pattern@.len())[k as int] == text@[i + k]);
        if i == last {
            return false;
        }
        i += 1;
    }
    false
}

fn trim_slashes(path: &str) -> (trimmed: String)
    ensures
        trimmed@ == without_slashes(path@),
{
    let chars = text::chars_of(path);
    let mut len: usize = chars.len();
    assert(path@.take(len as int) =~= path@);
    while len > 0 && chars[len - 1] == '/'
        invariant
            len <= chars@.len(),
            chars@ == path@,
            without_slashes(path@) == without_slashes(path@.take(len as int)),
        decreases len,
    {
        assert(path@.take(len as int).drop_last() =~= path@.take(len - 1));
        len -= 1;
    }
    let kept = text::text_of(slice_subrange(chars.as_slice(), 0, len));
    assert(kept@ =~= path@.take(len as int));
    kept
}

fn join_child(directory: &str, name: &str) -> (path: String)
    ensures
        path@ == child_path(directory@, name@),
{
    if directory.as_bytes().len() == 0 {
        proof {
            text::lemma_empty_text(directory@);
        }
        name.to_owned()
    } else {
        proof {
            text::lemma_empty_text(directory@);
        }
        let mut path = trim_slashes(directory);
        path.push('/');
        let ghost before = path@;
        let whole = text::joined(path.as_str(), name);
        assert(whole@ =~= child_path(directory@, name@));
        whole
    }
}

/// The identity of what has a relative path.
pub fn id_of_path(path: &str) -> (id: String)
    ensures
        id@ == path_id(path@),
{
    let digest = hash::hash(path.as_bytes());
    hash::to_hex(digest.as_slice())
}

fn show(entry: &RawEntry, directory: &str) -> (shown: Entry)
    ensures
        shown@ == shown_entry(entry@, directory@),
{
    let relative_path = join_child(directory, entry.name.as_str());
    let is_file = matches!(entry.kind, FileKind::File);
    let shown = Entry {
        id: id_of_path(relative_path.as_str()),
        raw_name: fields::copy_bytes(entry.name.as_str().as_bytes()),
        display_name: entry.name.clone(),
        relative_path,
        is_dir: matches!(entry.kind, FileKind::Directory),
        size: if is_file {
            entry.size
        } else {
            0
        },
        modified_ms: entry.modified_ms,
    };
    assert(shown@ =~= shown_entry(entry@, directory@));
    shown
}

fn visible(entry: &RawEntry, query: &str) -> (yes: bool)
    ensures
        yes == is_shown(entry@, query@),
{
    if matches!(entry.kind, FileKind::Symlink) || matches!(entry.kind, FileKind::Other) {
        return false;
    }
    proof {
        text::lemma_empty_text(query@);
    }
    if query.as_bytes().len() == 0 {
        return true;
    }
    let name = to_lowercase(entry.name.as_str());
    let part = to_lowercase(query);
    occurs(name.as_str(), part.as_str())
}

fn key_of(entry: &Entry) -> (key: Vec<u8>)
    ensures
        key@ == sort_key(entry@),
{
    let mut key: Vec<u8> = Vec::new();
    key.push(
        if entry.is_dir {
            0u8
        } else {
            1u8
        },
    );
    let lower = to_lowercase(entry.display_name.as_str());
    key.extend_from_slice(lower.as_str().as_bytes());
    assert(key@ =~= sort_key(entry@));
    key
}

/// The page of a directory that was asked for, and whether more entries
/// follow it. `items` is `None` where the path is no directory. A query that
/// is not empty keeps the names that hold it.
pub fn list_entries(
    items: Option<&Vec<RawEntry>>,
    relative: &str,
    offset: usize,
    limit: usize,
    query: &str,
) -> (result: Result<(Vec<Entry>, bool), LanFlowError>)
    ensures
        items is None ==> (result matches Err(e) && e@ == ErrorView::InvalidInput(
            "远端路径不是目录"@,
        )),
        items matches Some(list) ==> (result matches Ok((entries, has_more)) && is_page(
            fields::views(entries@),
            shown(fields::views(list@), relative@, query@),
            offset as nat,
            limit as nat,
        ) && has_more == (shown(fields::views(list@), relative@, query@).len() > offset + limit)
            && has_more == more_follow(
            shown(fields::views(list@), relative@, query@).len(),
            offset as nat,
            limit as nat,
        )),
{
    let list = match items {
        Some(list) => list,
        None => {
            return Err(LanFlowError::InvalidInput("远端路径不是目录".to_owned()));
        },
    };
    let ghost raw = fields::views(list@);
    let mut found: Vec<Entry> = Vec::new();
    let mut keys: Vec<Vec<u8>> = Vec::new();
    let mut i: usize = 0;
    assert(fields::views(found@) =~= shown(raw.take(0), relative@, query@));
    assert(ordering::views(keys@) =~= sort_keys(fields::views(found@)));
    while i < list.len()
        invariant
            i <= list@.len(),
            raw == fields::views(list@),
            fields::views(found@) == shown(raw.take(i as int), relative@, query@),
            ordering::views(keys@) == sort_keys(fields::views(found@)),
        decreases list@.len() - i,
    {
        proof {
            assert(raw.take(i + 1).drop_last() =~= raw.take(i as int));
            assert(raw.take(i + 1).last() == list@[i as int]@);
        }
        if visible(&list[i], query) {
            let ghost before = found@;
            let ghost keys_before = keys@;
            let entry = show(&list[i], relative);
            let key = key_of(&entry);
            keys.push(key);
            found.push(entry);
            proof {
                assert(fields::views(found@) =~= fields::views(before).push(entry@));
                assert(ordering::views(keys@) =~= ordering::views(keys_before).push(key@));
                assert(ordering::views(keys@) =~= sort_keys(fields::views(found@)));
            }
        }
        i += 1;
    }
    assert(raw.take(i as int) =~= raw);
    let ghost entries = fields::views(found@);
    let order = ordering::stable_order(&keys);
    let ghost sorted = arranged(entries, order@);
    let total: usize = found.len();
    let end: usize = if limit <= total && offset <= total - limit {
        offset + limit
    } else {
        total
    };
    let has_more = limit < total && offset < total - limit;
    let mut result: Vec<Entry> = Vec::new();
    let mut k: usize = if offset < total {
        offset
    } else {
        total
    };
    let ghost from = k as int;
    assert(fields::views(result@) =~= sorted.subrange(from, k as int));
    while k < end
        invariant
            0 <= from <= k,
            k <= end || k == from,
            end <= found@.len(),
            order@.len() == found@.len(),
            entries == fields::views(found@),
            sorted == arranged(entries, order@),
            ordering::is_order(sort_keys(entries), order@),
            fields::views(result@) == sorted.subrange(from, k as int),
        decreases end - k,
    {
        let ghost before = result@;
        let position: usize = order[k];
        let entry = found[position].clone();
        result.push(entry);
        proof {
            assert(fields::views(result@) =~= fields::views(before).push(entry@));
            assert(entries[position as int] == found@[position as int]@);
            assert(sorted.subrange(from, k + 1) =~= sorted.subrange(from, k as int).push(
                sorted[k as int],
            ));
        }
        k += 1;
    }
    assert(fields::views(result@) =~= page(sorted, offset as nat, limit as nat));
    Ok((result, has_more))
}

} // verus!
