//! Paths as texts: which relative paths are accepted, how names are made safe
//! for every file system, and what it means to stay inside a directory.
//!
//! Paths are cut at slashes. Those of a system that cuts them at other
//! characters are handed over with slashes in their place.

use vstd::prelude::*;
use vstd::utf8;

use crate::error::{ErrorView, LanFlowError};
use crate::fields;
use crate::outside::hash;
use crate::outside::hash::encode_upper;
use crate::text;

verus! {

// ---------------------------------------------------------------------------
// The parts of a path
// ---------------------------------------------------------------------------

/// A text cut at every slash.
pub open spec fn pieces(path: Seq<char>) -> Seq<Seq<char>>
    decreases path.len(),
{
    if path.len() == 0 {
        seq![Seq::empty()]
    } else {
        let before = pieces(path.drop_last());
        if path.last() == '/' {
            before.push(Seq::empty())
        } else {
            before.drop_last().push(before.last().push(path.last()))
        }
    }
}

/// Whether a piece of a path names nothing: it is empty or a single dot.
pub open spec fn is_blank(piece: Seq<char>) -> bool {
    piece.len() == 0 || piece == seq!['.']
}

/// The parts of a path: its pieces that name something.
pub open spec fn parts(path: Seq<char>) -> Seq<Seq<char>> {
    pieces(path).filter(|piece: Seq<char>| !is_blank(piece))
}

pub open spec fn is_absolute(path: Seq<char>) -> bool {
    path.len() > 0 && path[0] == '/'
}

/// The parts that an accepted relative path has, or why it is refused.
pub open spec fn relative_parts(path: Seq<char>) -> Result<Seq<Seq<char>>, ErrorView> {
    if is_absolute(path) {
        Err(ErrorView::InvalidInput("不允许绝对远端路径"@))
    } else if parts(path).contains(seq!['.', '.']) {
        Err(ErrorView::InvalidInput("路径包含非法组件"@))
    } else {
        Ok(parts(path))
    }
}

proof fn lemma_pieces_nonempty(path: Seq<char>)
    ensures
        pieces(path).len() > 0,
    decreases path.len(),
{
    if path.len() > 0 {
        lemma_pieces_nonempty(path.drop_last());
    }
}

/// Cuts a text at every slash.
fn split(path: &Vec<char>) -> (list: Vec<Vec<char>>)
    ensures
        fields::views(list@) == pieces(path@),
{
    let mut list: Vec<Vec<char>> = Vec::new();
    let mut last: Vec<char> = Vec::new();
    let mut i: usize = 0;
    assert(path@.take(0) =~= Seq::<char>::empty());
    assert(fields::views(list@).push(last@) =~= pieces(path@.take(0)));
    while i < path.len()
        invariant
            i <= path@.len(),
            fields::views(list@).push(last@) == pieces(path@.take(i as int)),
        decreases path@.len() - i,
    {
        let c = path[i];
        let ghost before = fields::views(list@);
        let ghost piece = last@;
        proof {
            assert(path@.take(i + 1).drop_last() =~= path@.take(i as int));
            assert(before.push(piece).drop_last() =~= before);
        }
        if c == '/' {
            let ghost done = list@;
            list.push(last);
            assert(fields::views(list@) =~= fields::views(done).push(piece));
            last = Vec::new();
        } else {
            last.push(c);
        }
        assert(fields::views(list@).push(last@) =~= pieces(path@.take(i + 1)));
        i += 1;
    }
    let ghost done = list@;
    let ghost piece = last@;
    list.push(last);
    assert(fields::views(list@) =~= fields::views(done).push(piece));
    assert(path@.take(i as int) =~= path@);
    list
}

/// The parts of a path.
pub fn path_parts(path: &str) -> (list: Vec<String>)
    ensures
        fields::views(list@) == parts(path@),
{
    let chars = text::chars_of(path);
    let cut = split(&chars);
    let ghost keep = |piece: Seq<char>| !is_blank(piece);
    let mut list: Vec<String> = Vec::new();
    let mut i: usize = 0;
    assert(fields::views(list@) =~= fields::views(cut@).take(0).filter(keep)) by {
        reveal(Seq::filter);
    }
    while i < cut.len()
        invariant
            i <= cut@.len(),
            keep == (|piece: Seq<char>| !is_blank(piece)),
            fields::views(list@) == fields::views(cut@).take(i as int).filter(keep),
        decreases cut@.len() - i,
    {
        let piece = &cut[i];
        let blank = piece.len() == 0 || (piece.len() == 1 && piece[0] == '.');
        proof {
            let all = fields::views(cut@);
            assert(all.take(i + 1).drop_last() =~= all.take(i as int));
            assert(all.take(i + 1).last() == piece@);
            reveal(Seq::filter);
            if piece@.len() == 1 && piece@[0] == '.' {
                assert(piece@ =~= seq!['.']);
            }
            assert(blank == is_blank(piece@));
        }
        if !blank {
            let ghost before = list@;
            let part = text::text_of(piece.as_slice());
            list.push(part);
            assert(fields::views(list@) =~= fields::views(before).push(part@));
        }
        i += 1;
    }
    assert(fields::views(cut@).take(i as int) =~= fields::views(cut@));
    list
}

/// The parts of a relative path. Absolute paths are refused, and so are paths
/// that step up.
pub fn validate_relative_path(relative: &str) -> (clean: Result<Vec<String>, LanFlowError>)
    ensures
        match relative_parts(relative@) {
            Ok(expected) => clean matches Ok(list) && fields::views(list@) == expected,
            Err(error) => clean matches Err(e) && e@ == error,
        },
{
    let chars = text::chars_of(relative);
    if chars.len() > 0 && chars[0] == '/' {
        return Err(LanFlowError::InvalidInput("不允许绝对远端路径".to_owned()));
    }
    let list = path_parts(relative);
    let ghost all = fields::views(list@);
    proof {
        reveal_strlit("..");
        assert(".."@ =~= seq!['.', '.']);
    }
    let mut i: usize = 0;
    while i < list.len()
        invariant
            i <= list@.len(),
            all == fields::views(list@),
            ".."@ == seq!['.', '.'],
            all == parts(relative@),
            !is_absolute(relative@),
            forall|j: int| 0 <= j < i ==> all[j] != ".."@,
        decreases list@.len() - i,
    {
        if text::same_text(list[i].as_str(), "..") {
            assert(all[i as int] == ".."@);
            return Err(LanFlowError::InvalidInput("路径包含非法组件".to_owned()));
        }
        assert(all[i as int] == list@[i as int]@);
        i += 1;
    }
    Ok(list)
}

/// Parts with slashes between them.
pub open spec fn slashed(list: Seq<Seq<char>>) -> Seq<char>
    decreases list.len(),
{
    if list.len() == 0 {
        Seq::empty()
    } else if list.len() == 1 {
        list[0]
    } else {
        slashed(list.drop_last()) + seq!['/'] + list.last()
    }
}

/// Joins parts with slashes.
pub fn join_parts(list: &[String]) -> (path: String)
    ensures
        path@ == slashed(fields::views(list@)),
{
    let ghost all = fields::views(list@);
    let mut path = String::new();
    let mut i: usize = 0;
    assert(path@ =~= slashed(all.take(0)));
    while i < list.len()
        invariant
            i <= list@.len(),
            all == fields::views(list@),
            path@ == slashed(all.take(i as int)),
        decreases list@.len() - i,
    {
        let ghost before = path@;
        if i > 0 {
            path.push('/');
        }
        path = text::joined(path.as_str(), list[i].as_str());
        proof {
            assert(all[i as int] == list@[i as int]@);
            assert(all.take(i + 1).drop_last() =~= all.take(i as int));
            if i == 0 {
                assert(before =~= Seq::<char>::empty());
                assert(path@ =~= all[0]);
                assert(all.take(1)[0] == all[0]);
            } else {
                assert(path@ =~= before + seq!['/'] + all[i as int]);
            }
        }
        i += 1;
    }
    assert(all.take(i as int) =~= all);
    path
}

// ---------------------------------------------------------------------------
// Staying inside a directory
// ---------------------------------------------------------------------------

/// Whether `path` is `root` or lies below it: they are absolute or relative
/// alike, and the parts of `path` begin with those of `root`.
pub open spec fn is_under(path: Seq<char>, root: Seq<char>) -> bool {
    &&& is_absolute(path) == is_absolute(root)
    &&& parts(root).len() <= parts(path).len()
    &&& parts(path).take(parts(root).len() as int) == parts(root)
}

fn starts_absolute(path: &str) -> (yes: bool)
    ensures
        yes == is_absolute(path@),
{
    let chars = text::chars_of(path);
    chars.len() > 0 && chars[0] == '/'
}

/// The parts of `path` below `root`, where it lies there.
pub fn strip_root(path: &str, root: &str) -> (rest: Option<Vec<String>>)
    ensures
        rest is Some <==> is_under(path@, root@),
        rest matches Some(list) ==> fields::views(list@) == parts(path@).skip(
            parts(root@).len() as int,
        ),
{
    let list = path_parts(path);
    let above = path_parts(root);
    let ghost all = fields::views(list@);
    let ghost upper = fields::views(above@);
    if starts_absolute(path) != starts_absolute(root) || above.len() > list.len() {
        return None;
    }
    let mut i: usize = 0;
    while i < above.len()
        invariant
            i <= above@.len() <= list@.len(),
            all == fields::views(list@),
            upper == fields::views(above@),
            all == parts(path@),
            upper == parts(root@),
            forall|j: int| 0 <= j < i ==> all[j] == upper[j],
        decreases above@.len() - i,
    {
        assert(all[i as int] == list@[i as int]@);
        assert(upper[i as int] == above@[i as int]@);
        if !text::same_text(list[i].as_str(), above[i].as_str()) {
            assert(all.take(upper.len() as int)[i as int] == all[i as int]);
            return None;
        }
        i += 1;
    }
    assert(all.take(upper.len() as int) =~= upper);
    let mut rest: Vec<String> = Vec::new();
    assert(fields::views(rest@) =~= all.subrange(upper.len() as int, i as int));
    while i < list.len()
        invariant
            upper.len() <= i <= list@.len(),
            all == fields::views(list@),
            fields::views(rest@) == all.subrange(upper.len() as int, i as int),
        decreases list@.len() - i,
    {
        let ghost before = rest@;
        rest.push(list[i].clone());
        assert(fields::views(rest@) =~= fields::views(before).push(list@[i as int]@));
        i += 1;
        assert(fields::views(rest@) =~= all.subrange(upper.len() as int, i as int));
    }
    assert(all.subrange(upper.len() as int, i as int) =~= all.skip(upper.len() as int));
    Some(rest)
}

/// Refuses a path that is a symbolic link.
pub fn check_no_symlink(is_symlink: bool) -> (checked: Result<(), LanFlowError>)
    ensures
        is_symlink ==> (checked matches Err(e) && e@ == ErrorView::InvalidInput(
            "符号链接不允许访问"@,
        )),
        !is_symlink ==> checked is Ok,
{
    if is_symlink {
        return Err(LanFlowError::InvalidInput("符号链接不允许访问".to_owned()));
    }
    Ok(())
}

/// Refuses a resolved path outside the shared directory.
pub fn check_confined(root: &str, canonical: &str) -> (checked: Result<(), LanFlowError>)
    ensures
        is_under(canonical@, root@) ==> checked is Ok,
        !is_under(canonical@, root@) ==> (checked matches Err(e) && e@ == ErrorView::InvalidInput(
            "路径超出分享目录"@,
        )),
{
    match strip_root(canonical, root) {
        Some(_) => Ok(()),
        None => Err(LanFlowError::InvalidInput("路径超出分享目录".to_owned())),
    }
}

/// The error for a shared directory that cannot be opened.
pub fn unreachable_root(reason: &str) -> (error: LanFlowError)
    ensures
        error@ == ErrorView::InvalidInput("分享目录不可访问: "@ + reason@),
{
    LanFlowError::InvalidInput(text::joined("分享目录不可访问: ", reason))
}

// ---------------------------------------------------------------------------
// Names that every file system takes
// ---------------------------------------------------------------------------

/// A character that some file system does not take in names.
pub open spec fn forbidden(c: char) -> bool {
    c == '<' || c == '>' || c == ':' || c == '"' || c == '/' || c == '\\' || c == '|' || c == '?'
        || c == '*' || c == '\0'
}

/// A character in capitals, where it is one of the letters of ASCII.
pub open spec fn ascii_upper(c: char) -> char {
    if 'a' <= c <= 'z' {
        (c as u32 - 32) as char
    } else {
        c
    }
}

pub open spec fn upper_text(name: Seq<char>) -> Seq<char> {
    name.map_values(|c: char| ascii_upper(c))
}

/// A name that some system keeps for a device, in capitals.
pub open spec fn is_device(name: Seq<char>) -> bool {
    name == "CON"@ || name == "PRN"@ || name == "AUX"@ || name == "NUL"@ || name == "COM1"@ || name
        == "COM2"@ || name == "COM3"@ || name == "COM4"@ || name == "LPT1"@ || name == "LPT2"@
        || name == "LPT3"@ || name == "LPT4"@
}

/// What begins every name that was made safe.
pub open spec fn safe_mark() -> Seq<char> {
    seq!['~', 'l', 'f', '-']
}

/// A name that would not name a plain file on every system.
pub open spec fn is_risky(name: Seq<char>) -> bool {
    ||| name.len() == 0
    ||| name == seq!['.']
    ||| name == seq!['.', '.']
    ||| name.last() == '.'
    ||| name.last() == ' '
    ||| exists|i: int| 0 <= i < name.len() && forbidden(#[trigger] name[i])
    ||| is_device(upper_text(name))
}

/// The name under which a file is stored: its own, or its bytes in
/// hexadecimal behind a mark.
pub open spec fn safe_name(name: Seq<char>) -> Seq<char> {
    if is_risky(name) || text::has_prefix(name, safe_mark()) {
        safe_mark() + hash::hex(utf8::encode_utf8(name), true)
    } else {
        name
    }
}

fn upper_char(c: char) -> (upper: char)
    ensures
        upper == ascii_upper(c),
{
    match c {
        'a' => 'A',
        'b' => 'B',
        'c' => 'C',
        'd' => 'D',
        'e' => 'E',
        'f' => 'F',
        'g' => 'G',
        'h' => 'H',
        'i' => 'I',
        'j' => 'J',
        'k' => 'K',
        'l' => 'L',
        'm' => 'M',
        'n' => 'N',
        'o' => 'O',
        'p' => 'P',
        'q' => 'Q',
        'r' => 'R',
        's' => 'S',
        't' => 'T',
        'u' => 'U',
        'v' => 'V',
        'w' => 'W',
        'x' => 'X',
        'y' => 'Y',
        'z' => 'Z',
        other => other,
    }
}

fn is_forbidden(c: char) -> (yes: bool)
    ensures
        yes == forbidden(c),
{
    c == '<' || c == '>' || c == ':' || c == '"' || c == '/' || c == '\\' || c == '|' || c == '?'
        || c == '*' || c == '\0'
}

fn names_device(chars: &Vec<char>) -> (yes: bool)
    ensures
        yes == is_device(upper_text(chars@)),
{
    let mut upper = String::new();
    let mut i: usize = 0;
    assert(upper@ =~= upper_text(chars@).take(0));
    while i < chars.len()
        invariant
            i <= chars@.len(),
            upper@ == upper_text(chars@).take(i as int),
        decreases chars@.len() - i,
    {
        upper.push(upper_char(chars[i]));
        i += 1;
        assert(upper@ =~= upper_text(chars@).take(i as int));
    }
    assert(upper@ =~= upper_text(chars@));
    let name = upper.as_str();
    text::same_text(name, "CON") || text::same_text(name, "PRN") || text::same_text(name, "AUX")
        || text::same_text(name, "NUL") || text::same_text(name, "COM1") || text::same_text(
        name,
        "COM2",
    ) || text::same_text(name, "COM3") || text::same_text(name, "COM4") || text::same_text(
        name,
        "LPT1",
    ) || text::same_text(name, "LPT2") || text::same_text(name, "LPT3") || text::same_text(
        name,
        "LPT4",
    )
}

fn risky(chars: &Vec<char>) -> (yes: bool)
    ensures
        yes == is_risky(chars@),
{
    if chars.len() == 0 {
        return true;
    }
    let last = chars[chars.len() - 1];
    if last == '.' || last == ' ' {
        return true;
    }
    let mut i: usize = 0;
    while i < chars.len()
        invariant
            i <= chars@.len(),
            forall|j: int| 0 <= j < i ==> !forbidden(#[trigger] chars@[j]),
        decreases chars@.len() - i,
    {
        if is_forbidden(chars[i]) {
            return true;
        }
        i += 1;
    }
    names_device(chars)
}

/// The name under which a file with the given name is stored.
pub fn safe_destination_component(component: &str) -> (name: String)
    ensures
        name@ == safe_name(component@),
{
    let chars = text::chars_of(component);
    let marked = chars.len() >= 4 && chars[0] == '~' && chars[1] == 'l' && chars[2] == 'f'
        && chars[3] == '-';
    proof {
        if marked {
            assert(component@.take(4) =~= safe_mark());
        } else if text::has_prefix(component@, safe_mark()) {
            assert(component@.take(4)[0] == component@[0] && component@.take(4)[1] == component@[1]
                && component@.take(4)[2] == component@[2] && component@.take(4)[3]
                == component@[3]);
        }
        reveal_strlit("~lf-");
        assert("~lf-"@ =~= safe_mark());
    }
    if marked || risky(&chars) {
        let digits = encode_upper(component.as_bytes());
        text::joined("~lf-", digits.as_str())
    } else {
        component.to_owned()
    }
}

/// A path with one more name at its end.
pub open spec fn path_push(path: Seq<char>, name: Seq<char>) -> Seq<char> {
    if path.len() == 0 || path.last() == '/' {
        path + name
    } else {
        path + seq!['/'] + name
    }
}

/// A path with the stored names of some parts at its end.
pub open spec fn safe_path(root: Seq<char>, list: Seq<Seq<char>>) -> Seq<char>
    decreases list.len(),
{
    if list.len() == 0 {
        root
    } else {
        path_push(safe_path(root, list.drop_last()), safe_name(list.last()))
    }
}

/// Adds a name to a path.
pub fn push_name(path: &str, name: &str) -> (longer: String)
    ensures
        longer@ == path_push(path@, name@),
{
    let chars = text::chars_of(path);
    if chars.len() == 0 || chars[chars.len() - 1] == '/' {
        text::joined(path, name)
    } else {
        let slash = text::joined(path, "/");
        proof {
            reveal_strlit("/");
            assert("/"@ =~= seq!['/']);
        }
        text::joined(slash.as_str(), name)
    }
}

/// Where a file with the given relative path is stored below `root`.
pub fn safe_destination_path(root: &str, relative: &str) -> (path: Result<String, LanFlowError>)
    ensures
        match relative_parts(relative@) {
            Ok(list) => path matches Ok(p) && p@ == safe_path(root@, list),
            Err(error) => path matches Err(e) && e@ == error,
        },
{
    let list = match validate_relative_path(relative) {
        Ok(list) => list,
        Err(error) => {
            return Err(error);
        },
    };
    let ghost all = fields::views(list@);
    let mut path = root.to_owned();
    let mut i: usize = 0;
    while i < list.len()
        invariant
            i <= list@.len(),
            all == fields::views(list@),
            path@ == safe_path(root@, all.take(i as int)),
        decreases list@.len() - i,
    {
        let name = safe_destination_component(list[i].as_str());
        path = push_name(path.as_str(), name.as_str());
        proof {
            assert(all.take(i + 1).drop_last() =~= all.take(i as int));
            assert(all.take(i + 1).last() == list@[i as int]@);
        }
        i += 1;
    }
    assert(all.take(i as int) =~= all);
    Ok(path)
}

// ---------------------------------------------------------------------------
// Laws
// ---------------------------------------------------------------------------

proof fn lemma_hex_digit(n: int, m: int)
    requires
        0 <= n < 16,
        0 <= m < 16,
    ensures
        hash::hex_digit(n, true) == hash::hex_digit(m, true) ==> n == m,
        hash::hex_digit(n, false) == hash::hex_digit(m, false) ==> n == m,
        '0' <= hash::hex_digit(n, true) <= '9' || 'A' <= hash::hex_digit(n, true) <= 'F',
{
}

/// Two byte strings with the same digits are the same.
pub proof fn lemma_hex_injective(a: Seq<u8>, b: Seq<u8>, upper: bool)
    requires
        hash::hex(a, upper) == hash::hex(b, upper),
    ensures
        a == b,
{
    assert(hash::hex(a, upper).len() == a.len() * 2);
    assert(hash::hex(b, upper).len() == b.len() * 2);
    assert forall|i: int| 0 <= i < a.len() implies a[i] == b[i] by {
        let x = hash::hex(a, upper);
        let y = hash::hex(b, upper);
        assert((2 * i) / 2 == i && (2 * i + 1) / 2 == i && (2 * i) % 2 == 0 && (2 * i + 1) % 2
            == 1);
        assert(x[2 * i] == y[2 * i]);
        assert(x[2 * i + 1] == y[2 * i + 1]);
        assert(x[2 * i] == hash::hex_digit(a[i] as int / 16, upper));
        assert(y[2 * i] == hash::hex_digit(b[i] as int / 16, upper));
        assert(x[2 * i + 1] == hash::hex_digit(a[i] as int % 16, upper));
        assert(y[2 * i + 1] == hash::hex_digit(b[i] as int % 16, upper));
        lemma_hex_digit(a[i] as int / 16, b[i] as int / 16);
        lemma_hex_digit(a[i] as int % 16, b[i] as int % 16);
    }
    assert(a =~= b);
}

/// Two names are stored under one name only if they are the same.
pub proof fn law_safe_names_differ(a: Seq<char>, b: Seq<char>)
    requires
        safe_name(a) == safe_name(b),
    ensures
        a == b,
{
    let escaped_a = is_risky(a) || text::has_prefix(a, safe_mark());
    let escaped_b = is_risky(b) || text::has_prefix(b, safe_mark());
    let hex_a = hash::hex(utf8::encode_utf8(a), true);
    let hex_b = hash::hex(utf8::encode_utf8(b), true);
    assert((safe_mark() + hex_a).take(4) =~= safe_mark());
    assert((safe_mark() + hex_b).take(4) =~= safe_mark());
    if escaped_a && escaped_b {
        assert((safe_mark() + hex_a).skip(4) =~= hex_a);
        assert((safe_mark() + hex_b).skip(4) =~= hex_b);
        lemma_hex_injective(utf8::encode_utf8(a), utf8::encode_utf8(b), true);
        text::lemma_utf8_injective(a, b);
    }
}

/// The name under which a file is stored is one that every file system takes:
/// it is not empty, has no forbidden character, does not end in a dot or a
/// space, and names neither a device nor a directory above.
pub proof fn law_safe_name_is_safe(name: Seq<char>)
    ensures
        !is_risky(safe_name(name)),
{
    let safe = safe_name(name);
    if is_risky(name) || text::has_prefix(name, safe_mark()) {
        let data = utf8::encode_utf8(name);
        let digits = hash::hex(data, true);
        assert forall|i: int| 0 <= i < digits.len() implies '0' <= #[trigger] digits[i] <= '9'
            || 'A' <= digits[i] <= 'F' by {
            lemma_hex_digit(data[i / 2] as int / 16, 0);
            lemma_hex_digit(data[i / 2] as int % 16, 0);
        }
        assert forall|i: int| 0 <= i < safe.len() implies !forbidden(#[trigger] safe[i]) by {
            if i >= 4 {
                assert(safe[i] == digits[i - 4]);
            }
        }
        if digits.len() > 0 {
            assert(safe.last() == digits.last());
        } else {
            assert(safe.last() == '-');
        }
        assert(safe[0] == '~');
        assert(upper_text(safe)[0] == '~');
        reveal_strlit("CON");
        reveal_strlit("PRN");
        reveal_strlit("AUX");
        reveal_strlit("NUL");
        reveal_strlit("COM1");
        reveal_strlit("COM2");
        reveal_strlit("COM3");
        reveal_strlit("COM4");
        reveal_strlit("LPT1");
        reveal_strlit("LPT2");
        reveal_strlit("LPT3");
        reveal_strlit("LPT4");
    }
}

proof fn lemma_pieces_join(a: Seq<char>, name: Seq<char>)
    requires
        forall|i: int| 0 <= i < name.len() ==> #[trigger] name[i] != '/',
    ensures
        pieces(a + name) == pieces(a).drop_last().push(pieces(a).last() + name),
    decreases name.len(),
{
    lemma_pieces_nonempty(a);
    if name.len() == 0 {
        assert(a + name =~= a);
        assert(pieces(a).last() + name =~= pieces(a).last());
        assert(pieces(a) =~= pieces(a).drop_last().push(pieces(a).last()));
    } else {
        let shorter = name.drop_last();
        assert((a + name).drop_last() =~= a + shorter);
        assert((a + name).last() == name.last());
        assert(name[name.len() - 1] != '/');
        assert forall|i: int| 0 <= i < shorter.len() implies #[trigger] shorter[i] != '/' by {
            assert(shorter[i] == name[i]);
        }
        lemma_pieces_join(a, shorter);
        let before = pieces(a + shorter);
        assert(before.drop_last() =~= pieces(a).drop_last());
        assert(before.last() == pieces(a).last() + shorter);
        assert((pieces(a).last() + shorter).push(name.last()) =~= pieces(a).last() + name);
    }
}

/// A name without slashes, added to a path, is one more part.
proof fn lemma_parts_push(path: Seq<char>, name: Seq<char>)
    requires
        forall|i: int| 0 <= i < name.len() ==> #[trigger] name[i] != '/',
        !is_blank(name),
    ensures
        parts(path_push(path, name)) == parts(path).push(name),
        path.len() > 0 ==> is_absolute(path_push(path, name)) == is_absolute(path),
        path.len() == 0 ==> !is_absolute(path_push(path, name)),
{
    let keep = |piece: Seq<char>| !is_blank(piece);
    lemma_pieces_nonempty(path);
    reveal(Seq::filter);
    if path.len() == 0 {
        assert(path + name =~= name);
        lemma_pieces_join(path, name);
        assert(pieces(path).last() + name =~= name);
        assert(pieces(path).drop_last() =~= Seq::empty());
        assert(pieces(name) =~= seq![name]);
        assert(seq![name].drop_last() =~= Seq::empty());
        let none = Seq::<Seq<char>>::empty();
        assert(none.filter(keep) =~= none);
        assert(pieces(path) =~= seq![Seq::<char>::empty()]);
        assert(pieces(path).drop_last() =~= none);
        assert(parts(path) =~= none);
        assert(parts(name) =~= seq![name]);
        assert(name[0] != '/');
    } else {
        let with_slash = if path.last() == '/' {
            path
        } else {
            path + seq!['/']
        };
        assert(path_push(path, name) =~= with_slash + name);
        lemma_pieces_join(with_slash, name);
        let base = pieces(with_slash);
        assert(base.last().len() == 0) by {
            if path.last() != '/' {
                assert(with_slash.drop_last() =~= path);
            }
        }
        assert(base.last() + name =~= name);
        let longer = base.drop_last().push(name);
        assert(longer.drop_last() =~= base.drop_last());
        assert(parts(with_slash) == base.drop_last().filter(keep));
        if path.last() != '/' {
            assert(with_slash.drop_last() =~= path);
            assert(base =~= pieces(path).push(Seq::empty()));
            assert(base.drop_last() =~= pieces(path));
        } else {
            assert(parts(path) == base.drop_last().filter(keep));
        }
        assert(parts(path) == base.drop_last().filter(keep));
    }
}

/// Where a file is stored lies below the directory that it is stored in, and
/// its parts there are the stored names of the parts of its relative path.
pub proof fn law_safe_path_stays_below(root: Seq<char>, list: Seq<Seq<char>>)
    ensures
        is_under(safe_path(root, list), root),
        parts(safe_path(root, list)) == parts(root) + list.map_values(
            |part: Seq<char>| safe_name(part),
        ),
    decreases list.len(),
{
    let names = list.map_values(|part: Seq<char>| safe_name(part));
    if list.len() == 0 {
        assert(parts(root) + names =~= parts(root));
        assert(parts(root).take(parts(root).len() as int) =~= parts(root));
    } else {
        let shorter = list.drop_last();
        law_safe_path_stays_below(root, shorter);
        let below = safe_path(root, shorter);
        let name = safe_name(list.last());
        law_safe_name_is_safe(list.last());
        assert forall|i: int| 0 <= i < name.len() implies #[trigger] name[i] != '/' by {
            assert(!forbidden(name[i]));
        }
        lemma_parts_push(below, name);
        let shorter_names = shorter.map_values(|part: Seq<char>| safe_name(part));
        assert(shorter_names.push(name) =~= names);
        assert((parts(root) + shorter_names).push(name) =~= parts(root) + names);
        assert((parts(root) + names).take(parts(root).len() as int) =~= parts(root));
    }
}

proof fn lemma_pieces_have_no_slash(path: Seq<char>, k: int, i: int)
    requires
        0 <= k < pieces(path).len(),
        0 <= i < pieces(path)[k].len(),
    ensures
        pieces(path)[k][i] != '/',
    decreases path.len(),
{
    if path.len() > 0 {
        let before = pieces(path.drop_last());
        lemma_pieces_nonempty(path.drop_last());
        if k < before.len() && i < before[k].len() {
            lemma_pieces_have_no_slash(path.drop_last(), k, i);
        }
    }
}

/// A part of a path names something and holds no slash.
proof fn lemma_part(path: Seq<char>, k: int)
    requires
        0 <= k < parts(path).len(),
    ensures
        !is_blank(parts(path)[k]),
        forall|i: int| 0 <= i < parts(path)[k].len() ==> #[trigger] parts(path)[k][i] != '/',
{
    broadcast use vstd::seq_lib::group_filter_ensures;

    let keep = |piece: Seq<char>| !is_blank(piece);
    let part = parts(path)[k];
    assert(keep(part));
    assert(pieces(path).filter(keep).contains(part));
    assert(pieces(path).contains(part)) by {
        lemma_filtered_from(pieces(path), keep, k);
    }
    let m = pieces(path).index_of(part);
    assert forall|i: int| 0 <= i < part.len() implies #[trigger] part[i] != '/' by {
        lemma_pieces_have_no_slash(path, m, i);
    }
}

proof fn lemma_filtered_from(all: Seq<Seq<char>>, keep: spec_fn(Seq<char>) -> bool, k: int)
    requires
        0 <= k < all.filter(keep).len(),
    ensures
        all.contains(all.filter(keep)[k]),
    decreases all.len(),
{
    reveal(Seq::filter);
    if all.len() > 0 {
        let before = all.drop_last();
        let item = all.filter(keep)[k];
        if k < before.filter(keep).len() {
            lemma_filtered_from(before, keep, k);
            assert(all[before.index_of(item)] == item);
        } else {
            assert(all[all.len() - 1] == item);
        }
    }
}

proof fn lemma_slashed_parts(list: Seq<Seq<char>>)
    requires
        forall|k: int| 0 <= k < list.len() ==> !is_blank(#[trigger] list[k]),
        forall|k: int, i: int|
            0 <= k < list.len() && 0 <= i < list[k].len() ==> #[trigger] list[k][i] != '/',
    ensures
        parts(slashed(list)) == list,
        !is_absolute(slashed(list)),
        list.len() > 0 ==> slashed(list).len() > 0 && slashed(list).last() != '/',
    decreases list.len(),
{
    if list.len() == 0 {
        reveal_with_fuel(Seq::filter, 2);
        assert(pieces(Seq::<char>::empty()) =~= seq![Seq::<char>::empty()]);
        assert(seq![Seq::<char>::empty()].drop_last() =~= Seq::empty());
        assert(parts(Seq::<char>::empty()) =~= Seq::empty());
        assert(list =~= Seq::empty());
    } else {
        let shorter = list.drop_last();
        let name = list.last();
        assert(name == list[list.len() - 1]);
        assert forall|k: int| 0 <= k < shorter.len() implies !is_blank(#[trigger] shorter[k]) by {
            assert(shorter[k] == list[k]);
        }
        assert forall|k: int, i: int|
            0 <= k < shorter.len() && 0 <= i < shorter[k].len() implies #[trigger] shorter[k][i]
            != '/' by {
            assert(shorter[k][i] == list[k][i]);
        }
        lemma_slashed_parts(shorter);
        assert forall|i: int| 0 <= i < name.len() implies #[trigger] name[i] != '/' by {
            assert(name[i] == list[list.len() - 1][i]);
        }
        lemma_parts_push(slashed(shorter), name);
        assert(slashed(list) =~= path_push(slashed(shorter), name));
        assert(name[name.len() - 1] != '/');
        assert(slashed(list).last() == name.last());
        assert(list =~= shorter.push(name));
    }
}

/// A relative path that was accepted and cleaned is accepted again, and has
/// the same parts: joined by slashes they are a relative path with just these
/// parts.
pub proof fn law_clean_paths_stay(path: Seq<char>)
    requires
        relative_parts(path) is Ok,
    ensures
        relative_parts(slashed(parts(path))) == relative_parts(path),
        relative_parts(path) == Ok::<Seq<Seq<char>>, ErrorView>(parts(path)),
{
    let list = parts(path);
    assert forall|k: int| 0 <= k < list.len() implies !is_blank(#[trigger] list[k]) by {
        lemma_part(path, k);
    }
    assert forall|k: int, i: int|
        0 <= k < list.len() && 0 <= i < list[k].len() implies #[trigger] list[k][i] != '/' by {
        lemma_part(path, k);
    }
    lemma_slashed_parts(list);
}

/// A relative path is taken apart at its slashes into just the names that it
/// was put together from; it is refused where one of them leads above, and only
/// there.
pub proof fn law_relative_paths_keep_their_parts(list: Seq<Seq<char>>)
    requires
        forall|k: int|
            0 <= k < list.len() ==> (#[trigger] list[k]).len() > 0 && list[k] != seq!['.'],
        forall|k: int, i: int|
            0 <= k < list.len() && 0 <= i < list[k].len() ==> #[trigger] list[k][i] != '/',
    ensures
        list.contains(seq!['.', '.']) ==> relative_parts(slashed(list)) is Err,
        !list.contains(seq!['.', '.']) ==> relative_parts(slashed(list)) == Ok::<
            Seq<Seq<char>>,
            ErrorView,
        >(list),
{
    lemma_slashed_parts(list);
}

/// A path from the root is refused.
pub proof fn law_absolute_paths_are_refused(path: Seq<char>)
    ensures
        relative_parts("/"@ + path) is Err,
{
    reveal_strlit("/");
    assert(("/"@ + path)[0] == '/');
}

/// Names with slashes between them: one more name stands behind a slash.
pub proof fn law_slashes_stand_between_names(list: Seq<Seq<char>>, name: Seq<char>)
    ensures
        slashed(Seq::empty()).len() == 0,
        slashed(seq![name]) == name,
        list.len() > 0 ==> slashed(list.push(name)) == slashed(list) + "/"@ + name,
{
    reveal_strlit("/");
    assert("/"@ =~= seq!['/']);
    assert(list.push(name).drop_last() =~= list);
}

/// Names that are joined by slashes are the parts of the path that they make.
pub proof fn law_slashed_names_are_parts(list: Seq<Seq<char>>)
    requires
        forall|k: int|
            0 <= k < list.len() ==> (#[trigger] list[k]).len() > 0 && list[k] != seq!['.'],
        forall|k: int, i: int|
            0 <= k < list.len() && 0 <= i < list[k].len() ==> #[trigger] list[k][i] != '/',
    ensures
        parts(slashed(list)) == list,
{
    lemma_slashed_parts(list);
}

/// Slashes at the end of a path, and single dots, name nothing; a name that
/// follows a slash is one more part.
pub proof fn law_only_names_are_parts(path: Seq<char>, name: Seq<char>)
    requires
        name.len() > 0,
        name != seq!['.'],
        forall|i: int| 0 <= i < name.len() ==> #[trigger] name[i] != '/',
    ensures
        parts(Seq::empty()).len() == 0,
        parts(path + "/"@) == parts(path),
        parts(path + "/"@ + "."@) == parts(path),
        parts(path + "/"@ + name) == parts(path).push(name),
{
    reveal_strlit("/");
    reveal_strlit(".");
    let none = Seq::<char>::empty();
    let with_slash = path + "/"@;
    assert(with_slash.drop_last() =~= path);
    lemma_slashed_parts(Seq::empty());
    assert(slashed(Seq::empty()) =~= none);
    lemma_pieces_nonempty(path);
    reveal(Seq::filter);
    assert(pieces(with_slash) == pieces(path).push(none));
    assert(pieces(with_slash).drop_last() =~= pieces(path));
    assert(is_blank(none));
    let with_dot = with_slash + "."@;
    assert forall|i: int| 0 <= i < "."@.len() implies #[trigger] "."@[i] != '/' by {}
    lemma_pieces_join(with_slash, "."@);
    assert(pieces(with_dot).drop_last() =~= pieces(path));
    assert(none + "."@ =~= seq!['.']);
    lemma_parts_push(with_slash, name);
    assert(path_push(with_slash, name) == with_slash + name);
}

/// What lies below a directory is what has all its parts at the front, each as
/// a whole, so that a directory whose name only begins alike is another one.
pub proof fn law_below_goes_by_whole_names(root: Seq<Seq<char>>, list: Seq<Seq<char>>)
    requires
        forall|k: int|
            0 <= k < root.len() ==> (#[trigger] root[k]).len() > 0 && root[k] != seq!['.'],
        forall|k: int, i: int|
            0 <= k < root.len() && 0 <= i < root[k].len() ==> #[trigger] root[k][i] != '/',
        forall|k: int|
            0 <= k < list.len() ==> (#[trigger] list[k]).len() > 0 && list[k] != seq!['.'],
        forall|k: int, i: int|
            0 <= k < list.len() && 0 <= i < list[k].len() ==> #[trigger] list[k][i] != '/',
    ensures
        is_under(slashed(list), slashed(root)) <==> exists|rest: Seq<Seq<char>>|
            list == #[trigger] (root + rest),
{
    lemma_slashed_parts(root);
    lemma_slashed_parts(list);
    if is_under(slashed(list), slashed(root)) {
        let rest = list.skip(root.len() as int);
        assert(list.take(root.len() as int) + rest =~= list);
        assert(list == root + rest);
    }
    if exists|rest: Seq<Seq<char>>| list == #[trigger] (root + rest) {
        let rest = choose|rest: Seq<Seq<char>>| list == #[trigger] (root + rest);
        assert((root + rest).take(root.len() as int) =~= root);
    }
}

/// A path from the root never lies below one that is relative, nor the other
/// way round.
pub proof fn law_below_keeps_the_root(path: Seq<char>, root: Seq<char>)
    requires
        is_under(path, root),
    ensures
        (path.len() > 0 && path[0] == '/') <==> (root.len() > 0 && root[0] == '/'),
{
}

/// A name stands behind the directory and one slash.
pub proof fn law_names_stand_behind_a_slash(path: Seq<char>, name: Seq<char>)
    ensures
        path.len() == 0 ==> path_push(path, name) == name,
        path.len() > 0 && path.last() != '/' ==> path_push(path, name) == path + "/"@ + name,
        path_push(path + "/"@, name) == path + "/"@ + name,
{
    reveal_strlit("/");
    assert("/"@ =~= seq!['/']);
    assert((path + "/"@).last() == '/');
    if path.len() == 0 {
        assert(path + name =~= name);
    }
}

/// Whether a name is a name of a device, whatever the case of its letters.
pub open spec fn says_device(name: Seq<char>, device: Seq<char>) -> bool {
    &&& name.len() == device.len()
    &&& forall|i: int|
        0 <= i < name.len() ==> #[trigger] name[i] == device[i] || ('a' <= name[i] <= 'z'
            && name[i] as u32 - 32 == device[i] as u32)
}

proof fn lemma_capital(c: char, capital: char)
    requires
        !('a' <= capital <= 'z'),
        c == capital || ('a' <= c <= 'z' && c as u32 - 32 == capital as u32),
    ensures
        ascii_upper(c) == capital,
{
}

proof fn lemma_says_device(name: Seq<char>, device: Seq<char>)
    requires
        forall|i: int| 0 <= i < device.len() ==> !('a' <= #[trigger] device[i] <= 'z'),
    ensures
        upper_text(name) == device <==> says_device(name, device),
{
    let upper = upper_text(name);
    if upper == device {
        assert forall|i: int| 0 <= i < name.len() implies #[trigger] name[i] == device[i] || ('a'
            <= name[i] <= 'z' && name[i] as u32 - 32 == device[i] as u32) by {
            assert(upper[i] == ascii_upper(name[i]));
        }
    }
    if says_device(name, device) {
        assert forall|i: int| 0 <= i < name.len() implies #[trigger] upper[i] == device[i] by {
            assert(name[i] == device[i] || ('a' <= name[i] <= 'z' && name[i] as u32 - 32
                == device[i] as u32));
            assert(!('a' <= device[i] <= 'z'));
            lemma_capital(name[i], device[i]);
        }
        assert(upper =~= device);
    }
}

proof fn lemma_devices(name: Seq<char>)
    ensures
        is_device(upper_text(name)) <==> says_device(name, "CON"@) || says_device(name, "PRN"@)
            || says_device(name, "AUX"@) || says_device(name, "NUL"@) || says_device(name, "COM1"@)
            || says_device(name, "COM2"@) || says_device(name, "COM3"@) || says_device(name, "COM4"@)
            || says_device(name, "LPT1"@) || says_device(name, "LPT2"@) || says_device(name, "LPT3"@)
            || says_device(name, "LPT4"@),
{
    reveal_strlit("CON");
    reveal_strlit("PRN");
    reveal_strlit("AUX");
    reveal_strlit("NUL");
    reveal_strlit("COM1");
    reveal_strlit("COM2");
    reveal_strlit("COM3");
    reveal_strlit("COM4");
    reveal_strlit("LPT1");
    reveal_strlit("LPT2");
    reveal_strlit("LPT3");
    reveal_strlit("LPT4");
    lemma_says_device(name, "CON"@);
    lemma_says_device(name, "PRN"@);
    lemma_says_device(name, "AUX"@);
    lemma_says_device(name, "NUL"@);
    lemma_says_device(name, "COM1"@);
    lemma_says_device(name, "COM2"@);
    lemma_says_device(name, "COM3"@);
    lemma_says_device(name, "COM4"@);
    lemma_says_device(name, "LPT1"@);
    lemma_says_device(name, "LPT2"@);
    lemma_says_device(name, "LPT3"@);
    lemma_says_device(name, "LPT4"@);
}

/// The name under which a file is stored has at least one character, none of
/// those that some file system does not take, no dot or blank at its end, and
/// is no name of a device.
pub proof fn law_stored_names_are_plain(name: Seq<char>)
    ensures
        ({
            let kept = safe_name(name);
            &&& kept.len() > 0
            &&& kept.last() != '.' && kept.last() != ' '
            &&& !kept.contains('/') && !kept.contains('\\') && !kept.contains('\0')
            &&& !kept.contains(':') && !kept.contains('<') && !kept.contains('>')
            &&& !kept.contains('"') && !kept.contains('|') && !kept.contains('?')
            &&& !kept.contains('*')
            &&& !says_device(kept, "CON"@) && !says_device(kept, "PRN"@) && !says_device(
                kept,
                "AUX"@,
            ) && !says_device(kept, "NUL"@)
            &&& !says_device(kept, "COM1"@) && !says_device(kept, "COM2"@) && !says_device(
                kept,
                "COM3"@,
            ) && !says_device(kept, "COM4"@)
            &&& !says_device(kept, "LPT1"@) && !says_device(kept, "LPT2"@) && !says_device(
                kept,
                "LPT3"@,
            ) && !says_device(kept, "LPT4"@)
        }),
{
    let kept = safe_name(name);
    law_safe_name_is_safe(name);
    lemma_devices(kept);
    assert forall|c: char| kept.contains(c) implies !forbidden(c) by {
        let i = kept.index_of(c);
        assert(kept[i] == c);
    }
}

/// A name that every file system takes is stored as it is, unless it begins
/// like one that was made safe.
pub proof fn law_plain_names_stay(name: Seq<char>)
    requires
        name.len() > 0,
        name.last() != '.' && name.last() != ' ',
        !name.contains('/') && !name.contains('\\') && !name.contains('\0'),
        !name.contains(':') && !name.contains('<') && !name.contains('>'),
        !name.contains('"') && !name.contains('|') && !name.contains('?'),
        !name.contains('*'),
        !says_device(name, "CON"@) && !says_device(name, "PRN"@) && !says_device(name, "AUX"@)
            && !says_device(name, "NUL"@),
        !says_device(name, "COM1"@) && !says_device(name, "COM2"@) && !says_device(name, "COM3"@)
            && !says_device(name, "COM4"@),
        !says_device(name, "LPT1"@) && !says_device(name, "LPT2"@) && !says_device(name, "LPT3"@)
            && !says_device(name, "LPT4"@),
        !(exists|rest: Seq<char>| name == #[trigger] ("~lf-"@ + rest)),
    ensures
        safe_name(name) == name,
{
    lemma_devices(name);
    reveal_strlit("~lf-");
    if text::has_prefix(name, safe_mark()) {
        assert("~lf-"@ =~= safe_mark());
        assert(name =~= name.take(4) + name.skip(4));
        assert(name == "~lf-"@ + name.skip(4));
    }
    if exists|i: int| 0 <= i < name.len() && forbidden(#[trigger] name[i]) {
        let i = choose|i: int| 0 <= i < name.len() && forbidden(#[trigger] name[i]);
        assert(name.contains(name[i]));
    }
    assert(name != seq!['.']);
    assert(name != seq!['.', '.']);
}

} // verus!
