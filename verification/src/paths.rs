//! Paths relative to a root, and what keeps one inside it.
use vstd::prelude::*;
use vstd::string::*;

verus! {

/// A text cut at every `/`.
pub open spec fn pieces(text: Seq<char>) -> Seq<Seq<char>>
    decreases text.len(),
{
    if text.len() == 0 {
        seq![Seq::empty()]
    } else {
        let before = pieces(text.drop_last());
        if text.last() == '/' {
            before.push(Seq::empty())
        } else {
            before.drop_last().push(before.last().push(text.last()))
        }
    }
}

/// Texts with a `/` between each and the next.
pub open spec fn slashed(parts: Seq<Seq<char>>) -> Seq<char>
    decreases parts.len(),
{
    if parts.len() == 0 {
        Seq::empty()
    } else if parts.len() == 1 {
        parts[0]
    } else {
        slashed(parts.drop_last()) + "/"@ + parts.last()
    }
}

/// The pieces of a path that name something: neither an empty piece nor `.`
/// does.
pub open spec fn naming(parts: Seq<Seq<char>>) -> Seq<Seq<char>>
    decreases parts.len(),
{
    if parts.len() == 0 {
        Seq::empty()
    } else if parts.last().len() == 0 || parts.last() == "."@ {
        naming(parts.drop_last())
    } else {
        naming(parts.drop_last()).push(parts.last())
    }
}

/// The parts of a path below its root, or why the path is refused: it is
/// empty, or holds a NUL or a backslash, or is absolute, or climbs.
pub open spec fn relative(path: Seq<char>) -> Result<Seq<Seq<char>>, Seq<char>> {
    if path.len() == 0 {
        Err("files: a path must not be empty"@)
    } else if path.contains('\0') {
        Err("files: `"@ + path + "` contains a NUL byte"@)
    } else if path.contains('\\') {
        Err(
            "files: `"@ + path
                + "` contains a backslash, and a path is `/`-separated and relative to the root this host grants"@,
        )
    } else if path[0] == '/' {
        Err(
            "files: `"@ + path
                + "` is absolute, and a path is relative to the root this host grants"@,
        )
    } else if pieces(path).contains(".."@) {
        Err("files: `"@ + path + "` leaves the root this host grants"@)
    } else {
        Ok(naming(pieces(path)))
    }
}

/// A name that stays where it stands: not empty, neither `.` nor `..`, and
/// with nothing in it that separates or ends a path.
pub open spec fn plain(name: Seq<char>) -> bool {
    &&& name.len() > 0
    &&& name != "."@
    &&& name != ".."@
    &&& !name.contains('/')
    &&& !name.contains('\\')
    &&& !name.contains('\0')
}

proof fn lemma_pieces_hold_what_the_text_does(text: Seq<char>)
    ensures
        pieces(text).len() >= 1,
        forall|k: int|
            0 <= k < pieces(text).len() ==> !(#[trigger] pieces(text)[k]).contains('/'),
        forall|k: int, c: char|
            0 <= k < pieces(text).len() && #[trigger] pieces(text)[k].contains(c) ==> text.contains(
                c,
            ),
    decreases text.len(),
{
    if text.len() > 0 {
        let shorter = text.drop_last();
        lemma_pieces_hold_what_the_text_does(shorter);
        let before = pieces(shorter);
        let now = pieces(text);
        assert(forall|c: char| #[trigger] shorter.contains(c) ==> text.contains(c)) by {
            assert forall|c: char| #[trigger] shorter.contains(c) implies text.contains(c) by {
                let i = choose|i: int| 0 <= i < shorter.len() && shorter[i] == c;
                assert(text[i] == c);
            }
        }
        assert(text[text.len() - 1] == text.last());
        assert forall|k: int| 0 <= k < now.len() implies !(#[trigger] now[k]).contains('/') by {
            if text.last() == '/' {
                if k < before.len() {
                    assert(now[k] == before[k]);
                }
            } else if k < before.len() - 1 {
                assert(now[k] == before[k]);
            } else {
                let last = before.last();
                assert(now[k] == last.push(text.last()));
                assert(!before[before.len() - 1].contains('/'));
                if now[k].contains('/') {
                    let i = choose|i: int| 0 <= i < now[k].len() && now[k][i] == '/';
                    assert(last[i] == '/');
                }
            }
        }
        assert forall|k: int, c: char|
            0 <= k < now.len() && #[trigger] now[k].contains(c) implies text.contains(c) by {
            if text.last() == '/' {
                if k < before.len() {
                    assert(before[k].contains(c));
                }
            } else if k < before.len() - 1 {
                assert(before[k].contains(c));
            } else {
                let last = before.last();
                let i = choose|i: int| 0 <= i < now[k].len() && now[k][i] == c;
                if i < last.len() {
                    assert(last[i] == c);
                    assert(before[before.len() - 1].contains(c));
                } else {
                    assert(c == text.last());
                }
            }
        }
    }
}

proof fn lemma_naming(parts: Seq<Seq<char>>)
    ensures
        forall|x: Seq<char>| #[trigger]
            naming(parts).contains(x) <==> (parts.contains(x) && x.len() > 0 && x != "."@),
    decreases parts.len(),
{
    if parts.len() > 0 {
        let fewer = parts.drop_last();
        lemma_naming(fewer);
        let now = naming(parts);
        assert forall|x: Seq<char>| #[trigger] now.contains(x) <==> (parts.contains(x) && x.len()
            > 0 && x != "."@) by {
            let old_names = naming(fewer);
            assert(old_names.contains(x) <==> (fewer.contains(x) && x.len() > 0 && x != "."@));
            if parts.contains(x) {
                let i = choose|i: int| 0 <= i < parts.len() && parts[i] == x;
                if i < fewer.len() {
                    assert(fewer[i] == x);
                }
            }
            if fewer.contains(x) {
                let i = choose|i: int| 0 <= i < fewer.len() && fewer[i] == x;
                assert(parts[i] == x);
            }
            if parts.last().len() > 0 && parts.last() != "."@ {
                if old_names.contains(x) {
                    let i = choose|i: int| 0 <= i < old_names.len() && old_names[i] == x;
                    assert(now[i] == x);
                }
                if x == parts.last() {
                    assert(now[now.len() - 1] == x);
                    assert(parts[parts.len() - 1] == x);
                }
                if now.contains(x) {
                    let i = choose|i: int| 0 <= i < now.len() && now[i] == x;
                    if i < old_names.len() {
                        assert(old_names[i] == x);
                    } else {
                        assert(parts[parts.len() - 1] == x);
                    }
                }
            }
        }
    }
}

/// No path leads out of its root: every part of one that is not refused is a
/// plain name.
pub proof fn a_path_stays_inside_its_root(path: Seq<char>, part: Seq<char>)
    requires
        relative(path) is Ok,
        relative(path)->Ok_0.contains(part),
    ensures
        plain(part),
{
    lemma_naming(pieces(path));
    lemma_pieces_hold_what_the_text_does(path);
    let all = pieces(path);
    let k = choose|k: int| 0 <= k < all.len() && all[k] == part;
    assert(!all[k].contains('/'));
    if part.contains('\\') {
        assert(all[k].contains('\\'));
    }
    if part.contains('\0') {
        assert(all[k].contains('\0'));
    }
    if part == ".."@ {
        assert(all[k] == ".."@);
    }
}

/// Whether a text holds a character.
pub fn holds(text: &str, wanted: char) -> (yes: bool)
    ensures
        yes == text@.contains(wanted),
{
    let total: usize = text.unicode_len();
    let mut i: usize = 0;
    while i < total
        invariant
            i <= total == text@.len(),
            forall|j: int| 0 <= j < i ==> #[trigger] text@[j] != wanted,
        decreases total - i,
    {
        if text.get_char(i) == wanted {
            return true;
        }
        i = i + 1;
    }
    false
}

/// A text cut at every `/`.
pub fn split(text: &str) -> (parts: Vec<String>)
    ensures
        crate::names::texts(parts@) == pieces(text@),
{
    proof {
        reveal_strlit("");
        assert(""@ =~= Seq::<char>::empty());
    }
    let total: usize = text.unicode_len();
    let mut parts: Vec<String> = Vec::new();
    let mut start: usize = 0;
    let mut i: usize = 0;
    proof {
        assert(text@.take(0) =~= Seq::<char>::empty());
        assert(text@.subrange(0, 0) =~= Seq::<char>::empty());
        assert(crate::names::texts(parts@).push(text@.subrange(0, 0)) =~= pieces(text@.take(0)));
    }
    while i < total
        invariant
            start <= i <= total == text@.len(),
            crate::names::texts(parts@).push(text@.subrange(start as int, i as int)) == pieces(
                text@.take(i as int),
            ),
        decreases total - i,
    {
        let c: char = text.get_char(i);
        let ghost done = crate::names::texts(parts@);
        let ghost open = text@.subrange(start as int, i as int);
        proof {
            assert(text@.take(i + 1).drop_last() =~= text@.take(i as int));
            assert(text@.take(i + 1).last() == c);
            assert(done.push(open).drop_last() =~= done);
        }
        if c == '/' {
            let part: String = text.substring_char(start, i).to_owned();
            parts.push(part);
            start = i + 1;
            proof {
                assert(crate::names::texts(parts@) =~= done.push(open));
                assert(text@.subrange(i + 1, i + 1) =~= Seq::<char>::empty());
            }
        } else {
            proof {
                assert(text@.subrange(start as int, i + 1) =~= open.push(c));
            }
        }
        i = i + 1;
    }
    let ghost done = crate::names::texts(parts@);
    let last: String = text.substring_char(start, total).to_owned();
    parts.push(last);
    proof {
        assert(text@.take(i as int) =~= text@);
        assert(crate::names::texts(parts@) =~= done.push(
            text@.subrange(start as int, total as int),
        ));
    }
    parts
}

/// The first texts of a list with a `/` between each and the next.
pub fn join(parts: &Vec<String>, count: usize) -> (text: String)
    requires
        count <= parts@.len(),
    ensures
        text@ == slashed(crate::names::texts(parts@).take(count as int)),
{
    proof {
        reveal_strlit("");
        assert(""@ =~= Seq::<char>::empty());
    }
    let ghost all = crate::names::texts(parts@);
    let mut text: String = "".to_owned();
    let mut i: usize = 0;
    while i < count
        invariant
            i <= count <= parts@.len(),
            all == crate::names::texts(parts@),
            text@ == slashed(all.take(i as int)),
        decreases count - i,
    {
        if i > 0 {
            text.append("/");
        }
        text.append(parts[i].as_str());
        proof {
            assert(all.take(i + 1).drop_last() =~= all.take(i as int));
            assert(all.take(i + 1).last() == parts@[i as int]@);
            if i == 0 {
                assert(all.take(1)[0] == parts@[0]@);
                assert(text@ =~= parts@[0]@);
            }
        }
        i = i + 1;
    }
    text
}

/// The parts of a path below its root, or why the path is refused.
pub fn relative_parts(path: &str) -> (parts: Result<Vec<String>, String>)
    ensures
        match parts {
            Ok(list) => relative(path@) == Ok::<Seq<Seq<char>>, Seq<char>>(
                crate::names::texts(list@),
            ),
            Err(message) => relative(path@) == Err::<Seq<Seq<char>>, Seq<char>>(message@),
        },
{
    let total: usize = path.unicode_len();
    if total == 0 {
        return Err("files: a path must not be empty".to_owned());
    }
    if holds(path, '\0') {
        return Err(crate::text::joined("files: `", path, "` contains a NUL byte"));
    }
    if holds(path, '\\') {
        return Err(
            crate::text::joined(
                "files: `",
                path,
                "` contains a backslash, and a path is `/`-separated and relative to the root this host grants",
            ),
        );
    }
    if path.get_char(0) == '/' {
        return Err(
            crate::text::joined(
                "files: `",
                path,
                "` is absolute, and a path is relative to the root this host grants",
            ),
        );
    }
    let all: Vec<String> = split(path);
    let ghost cut = crate::names::texts(all@);
    let mut parts: Vec<String> = Vec::new();
    let mut i: usize = 0;
    proof {
        assert(cut.take(0) =~= Seq::<Seq<char>>::empty());
        assert(crate::names::texts(parts@) =~= Seq::<Seq<char>>::empty());
    }
    while i < all.len()
        invariant
            i <= all@.len(),
            cut == crate::names::texts(all@),
            cut == pieces(path@),
            path@.len() > 0,
            !path@.contains('\0'),
            !path@.contains('\\'),
            path@[0] != '/',
            crate::names::texts(parts@) == naming(cut.take(i as int)),
            forall|j: int| 0 <= j < i ==> #[trigger] cut[j] != ".."@,
        decreases all@.len() - i,
    {
        let part: &String = &all[i];
        proof {
            assert(cut.take(i + 1).drop_last() =~= cut.take(i as int));
            assert(cut.take(i + 1).last() == part@);
        }
        if crate::text::same(part.as_str(), "..") {
            proof {
                assert(cut[i as int] == ".."@);
            }
            return Err(
                crate::text::joined("files: `", path, "` leaves the root this host grants"),
            );
        }
        let empty: bool = part.as_str().unicode_len() == 0;
        if !empty && !crate::text::same(part.as_str(), ".") {
            let ghost were = crate::names::texts(parts@);
            parts.push(part.clone());
            proof {
                assert(crate::names::texts(parts@) =~= were.push(part@));
            }
        }
        i = i + 1;
    }
    proof {
        assert(cut.take(i as int) =~= cut);
    }
    Ok(parts)
}

/// The key a path is kept under, and the empty one for the root; or why the
/// path is refused.
pub open spec fn keyed(path: Seq<char>) -> Result<Seq<char>, Seq<char>> {
    match relative(path) {
        Ok(parts) => Ok(slashed(parts)),
        Err(message) => Err(message),
    }
}

/// The key a path is kept under, or why the path is refused.
pub fn relative_key(path: &str) -> (key: Result<String, String>)
    ensures
        match key {
            Ok(text) => keyed(path@) == Ok::<Seq<char>, Seq<char>>(text@),
            Err(message) => keyed(path@) == Err::<Seq<char>, Seq<char>>(message@),
        },
{
    match relative_parts(path) {
        Ok(parts) => {
            let count: usize = parts.len();
            proof {
                let all = crate::names::texts(parts@);
                assert(all.take(count as int) =~= all);
            }
            Ok(join(&parts, count))
        },
        Err(message) => Err(message),
    }
}

proof fn lemma_one_piece(part: Seq<char>)
    requires
        !part.contains('/'),
    ensures
        pieces(part) == seq![part],
    decreases part.len(),
{
    if part.len() > 0 {
        let shorter = part.drop_last();
        assert(part[part.len() - 1] != '/');
        assert forall|i: int| 0 <= i < shorter.len() implies shorter[i] != '/' by {
            assert(part[i] != '/');
        }
        lemma_one_piece(shorter);
        assert(shorter.push(part.last()) =~= part);
        assert(pieces(part) =~= seq![part]);
    } else {
        assert(part =~= Seq::empty());
    }
}

proof fn lemma_one_more_piece(text: Seq<char>, part: Seq<char>)
    requires
        !part.contains('/'),
    ensures
        pieces(text + "/"@ + part) == pieces(text).push(part),
    decreases part.len(),
{
    reveal_strlit("/");
    let whole = text + "/"@ + part;
    if part.len() == 0 {
        assert(whole.drop_last() =~= text);
        assert(part =~= Seq::empty());
    } else {
        let shorter = part.drop_last();
        assert(part[part.len() - 1] != '/');
        assert forall|i: int| 0 <= i < shorter.len() implies shorter[i] != '/' by {
            assert(part[i] != '/');
        }
        lemma_one_more_piece(text, shorter);
        assert(whole.drop_last() =~= text + "/"@ + shorter);
        assert(shorter.push(part.last()) =~= part);
        assert(pieces(whole) =~= pieces(text).push(part));
    }
}

/// What plain names joined by `/` cut back to, and hold.
proof fn lemma_slashed(parts: Seq<Seq<char>>)
    requires
        parts.len() > 0,
        forall|i: int| 0 <= i < parts.len() ==> plain(#[trigger] parts[i]),
    ensures
        pieces(slashed(parts)) == parts,
        naming(parts) == parts,
        slashed(parts).len() > 0,
        slashed(parts)[0] != '/',
        !slashed(parts).contains('\\'),
        !slashed(parts).contains('\0'),
    decreases parts.len(),
{
    reveal_strlit("/");
    let last = parts.last();
    let fewer = parts.drop_last();
    let whole = slashed(parts);
    assert(plain(parts[parts.len() - 1]));
    if parts.len() == 1 {
        lemma_one_piece(last);
        assert(last[0] != '/') by {
            if last[0] == '/' {
                assert(last.contains('/'));
            }
        }
        assert(naming(fewer) =~= Seq::empty());
        assert(seq![last] =~= parts);
        assert(naming(parts) =~= parts);
    } else {
        assert forall|i: int| 0 <= i < fewer.len() implies plain(#[trigger] fewer[i]) by {
            assert(plain(parts[i]));
        }
        lemma_slashed(fewer);
        lemma_one_more_piece(slashed(fewer), last);
        assert(fewer.push(last) =~= parts);
        assert forall|c: char| c != '/' && #[trigger] whole.contains(c) implies slashed(
            fewer,
        ).contains(c) || last.contains(c) by {
            let i = choose|i: int| 0 <= i < whole.len() && whole[i] == c;
            if i < slashed(fewer).len() {
                assert(slashed(fewer)[i] == c);
            } else if i > slashed(fewer).len() {
                assert(last[i - slashed(fewer).len() - 1] == c);
            }
        }
    }
}

/// A key is a normal form: it is its own key, and leads where the path does
/// that it was made of. The root's key is the empty one, which is no path.
pub proof fn a_key_is_its_own_key(path: Seq<char>)
    requires
        keyed(path) is Ok,
        keyed(path)->Ok_0.len() > 0,
    ensures
        keyed(keyed(path)->Ok_0) == keyed(path),
        relative(keyed(path)->Ok_0) == relative(path),
{
    let parts = relative(path)->Ok_0;
    assert forall|i: int| 0 <= i < parts.len() implies plain(#[trigger] parts[i]) by {
        a_path_stays_inside_its_root(path, parts[i]);
    }
    lemma_slashed(parts);
    if parts.contains(".."@) {
        let i = choose|i: int| 0 <= i < parts.len() && parts[i] == ".."@;
        assert(plain(parts[i]));
    }
}

/// A text is cut at every `/` and nowhere else: what stands before one and what
/// stands after it are cut each for itself.
pub proof fn a_text_is_cut_at_a_slash(before: Seq<char>, after: Seq<char>)
    ensures
        pieces(before + seq!['/'] + after) == pieces(before) + pieces(after),
    decreases after.len(),
{
    let whole = before + seq!['/'] + after;
    if after.len() == 0 {
        assert(whole.drop_last() =~= before);
        assert(pieces(whole) =~= pieces(before) + pieces(after));
    } else {
        let shorter = after.drop_last();
        a_text_is_cut_at_a_slash(before, shorter);
        assert(whole.drop_last() =~= before + seq!['/'] + shorter);
        assert(whole.last() == after.last());
        lemma_pieces_hold_what_the_text_does(shorter);
        assert(pieces(whole) =~= pieces(before) + pieces(after));
    }
}

/// A text without a `/` is one piece.
pub proof fn a_text_without_a_slash_is_one_piece(text: Seq<char>)
    requires
        !text.contains('/'),
    ensures
        pieces(text) == seq![text],
{
    lemma_one_piece(text);
}

/// Cutting a text and joining its pieces gives the text back.
pub proof fn what_was_cut_is_joined_again(text: Seq<char>)
    ensures
        slashed(pieces(text)) == text,
        slashed(Seq::<Seq<char>>::empty()) == Seq::<char>::empty(),
        pieces(text).len() >= 1,
        forall|k: int|
            0 <= k < pieces(text).len() ==> !(#[trigger] pieces(text)[k]).contains('/'),
    decreases text.len(),
{
    lemma_pieces_hold_what_the_text_does(text);
    reveal_strlit("/");
    if text.len() == 0 {
        assert(text =~= Seq::empty());
    } else {
        let shorter = text.drop_last();
        let before = pieces(shorter);
        what_was_cut_is_joined_again(shorter);
        lemma_pieces_hold_what_the_text_does(shorter);
        let now = pieces(text);
        assert(shorter.push(text.last()) =~= text);
        if text.last() == '/' {
            assert(now.drop_last() =~= before);
            assert(slashed(now) =~= text);
        } else {
            assert(now.drop_last() =~= before.drop_last());
            assert(slashed(now) =~= text);
        }
    }
}

/// Joining pieces that hold no `/` and cutting the text gives the pieces back.
pub proof fn what_was_joined_is_cut_again(parts: Seq<Seq<char>>)
    requires
        parts.len() > 0,
        forall|i: int| 0 <= i < parts.len() ==> !(#[trigger] parts[i]).contains('/'),
    ensures
        pieces(slashed(parts)) == parts,
    decreases parts.len(),
{
    assert(!parts[parts.len() - 1].contains('/'));
    if parts.len() == 1 {
        lemma_one_piece(parts[0]);
        assert(seq![parts[0]] =~= parts);
    } else {
        let fewer = parts.drop_last();
        assert forall|i: int| 0 <= i < fewer.len() implies !(#[trigger] fewer[i]).contains('/') by {
            assert(!parts[i].contains('/'));
        }
        what_was_joined_is_cut_again(fewer);
        lemma_one_more_piece(slashed(fewer), parts.last());
        assert(fewer.push(parts.last()) =~= parts);
    }
}

/// Joining two runs of pieces joins each, with a `/` between them.
pub proof fn runs_are_joined_each_for_itself(before: Seq<Seq<char>>, after: Seq<Seq<char>>)
    requires
        before.len() > 0,
        after.len() > 0,
    ensures
        slashed(before + after) == slashed(before) + seq!['/'] + slashed(after),
    decreases after.len(),
{
    reveal_strlit("/");
    assert("/"@ =~= seq!['/']);
    let whole = before + after;
    assert(whole.last() == after.last());
    if after.len() == 1 {
        assert(whole.drop_last() =~= before);
    } else {
        let fewer = after.drop_last();
        runs_are_joined_each_for_itself(before, fewer);
        assert(whole.drop_last() =~= before + fewer);
        assert(slashed(whole) =~= slashed(before) + seq!['/'] + slashed(after));
    }
}

/// Of the pieces of a path all name something, in their order, but the empty
/// ones and `.`.
pub proof fn every_piece_names_something_but_none_and_the_dot(
    before: Seq<Seq<char>>,
    part: Seq<char>,
    after: Seq<Seq<char>>,
)
    ensures
        naming(Seq::<Seq<char>>::empty()) == Seq::<Seq<char>>::empty(),
        part == Seq::<char>::empty() || part == seq!['.'] ==> naming(
            before + seq![part] + after,
        ) == naming(before) + naming(after),
        part.len() > 0 && part != seq!['.'] ==> naming(before + seq![part] + after) == naming(
            before,
        ) + seq![part] + naming(after),
    decreases after.len(),
{
    reveal_strlit(".");
    assert("."@ =~= seq!['.']);
    assert(part.len() == 0 ==> part =~= Seq::empty());
    let whole = before + seq![part] + after;
    if after.len() == 0 {
        assert(whole.drop_last() =~= before);
        assert(whole.last() == part);
        assert(after =~= Seq::empty());
        assert(naming(whole) =~= (if part.len() == 0 || part == "."@ {
            naming(before)
        } else {
            naming(before) + seq![part]
        }));
        assert(naming(before) + naming(after) =~= naming(before));
        assert(naming(before) + seq![part] + naming(after) =~= naming(before) + seq![part]);
    } else {
        let fewer = after.drop_last();
        every_piece_names_something_but_none_and_the_dot(before, part, fewer);
        assert(whole.drop_last() =~= before + seq![part] + fewer);
        assert(whole.last() == after.last());
        if part.len() == 0 || part == "."@ {
            assert(naming(whole) =~= naming(before) + naming(after));
        } else {
            assert(naming(whole) =~= naming(before) + seq![part] + naming(after));
        }
    }
}

/// A path climbs where two dots stand alone between its ends and its `/`s.
proof fn lemma_where_a_path_climbs(path: Seq<char>, i: int)
    requires
        0 <= i,
        i + 2 <= path.len(),
        path[i] == '.' && path[i + 1] == '.',
        i == 0 || path[i - 1] == '/',
        i + 2 == path.len() || path[i + 2] == '/',
    ensures
        pieces(path).contains(".."@),
{
    reveal_strlit("..");
    let dots = ".."@;
    let tail = path.skip(i);
    lemma_one_piece(dots);
    if i + 2 == path.len() {
        assert(tail =~= dots);
        assert(pieces(tail)[0] == dots);
    } else {
        let rest = path.skip(i + 3);
        assert(tail =~= dots + seq!['/'] + rest);
        a_text_is_cut_at_a_slash(dots, rest);
        assert(pieces(tail)[0] == dots);
    }
    lemma_pieces_hold_what_the_text_does(tail);
    if i == 0 {
        assert(tail =~= path);
        assert(pieces(path)[0] == dots);
    } else {
        let head = path.take(i - 1);
        assert(path =~= head + seq!['/'] + tail);
        a_text_is_cut_at_a_slash(head, tail);
        assert(pieces(path)[pieces(head).len() as int] == dots);
    }
}

/// Every piece of a text stands in it between its ends and its `/`s.
proof fn lemma_where_a_piece_stands(text: Seq<char>, k: int) -> (i: int)
    requires
        0 <= k < pieces(text).len(),
    ensures
        0 <= i,
        i + pieces(text)[k].len() <= text.len(),
        text.subrange(i, i + pieces(text)[k].len()) == pieces(text)[k],
        i == 0 || text[i - 1] == '/',
        i + pieces(text)[k].len() == text.len() || text[i + pieces(text)[k].len()] == '/',
        k == pieces(text).len() - 1 <==> i + pieces(text)[k].len() == text.len(),
    decreases text.len(),
{
    let part = pieces(text)[k];
    if text.len() == 0 {
        assert(text.subrange(0, 0) =~= part);
        0
    } else {
        let shorter = text.drop_last();
        let before = pieces(shorter);
        lemma_pieces_hold_what_the_text_does(shorter);
        if text.last() == '/' {
            if k < before.len() {
                let i = lemma_where_a_piece_stands(shorter, k);
                assert(text.subrange(i, i + part.len()) =~= shorter.subrange(i, i + part.len()));
                i
            } else {
                assert(text.subrange(text.len() as int, text.len() as int) =~= part);
                text.len() as int
            }
        } else if k < before.len() - 1 {
            let i = lemma_where_a_piece_stands(shorter, k);
            assert(text.subrange(i, i + part.len()) =~= shorter.subrange(i, i + part.len()));
            i
        } else {
            let i = lemma_where_a_piece_stands(shorter, k);
            let held = before[k];
            assert(part == held.push(text.last()));
            assert(shorter.subrange(i, i + held.len()) == held);
            assert(text.subrange(i, i + part.len()) =~= part) by {
                assert forall|j: int| 0 <= j < part.len() implies text.subrange(
                    i,
                    i + part.len(),
                )[j] == part[j] by {
                    if j < held.len() {
                        assert(shorter.subrange(i, i + held.len())[j] == held[j]);
                    }
                }
            }
            i
        }
    }
}

/// A path is refused just when it is empty, or holds a NUL or a backslash, or
/// begins with a `/`, or has two dots alone between its ends and its `/`s; and
/// it is told the first of these that holds. Otherwise its parts are those of
/// its pieces that name something.
pub proof fn a_path_is_refused_for_what_it_holds(path: Seq<char>)
    ensures
        relative(path) is Err <==> {
            ||| path.len() == 0
            ||| path.contains('\0')
            ||| path.contains('\\')
            ||| path[0] == '/'
            ||| exists|i: int|
                {
                    &&& 0 <= i
                    &&& i + 2 <= path.len()
                    &&& #[trigger] path[i] == '.'
                    &&& path[i + 1] == '.'
                    &&& i == 0 || path[i - 1] == '/'
                    &&& i + 2 == path.len() || path[i + 2] == '/'
                }
        },
        path.len() == 0 ==> relative(path) == Err::<Seq<Seq<char>>, Seq<char>>(
            "files: a path must not be empty"@,
        ),
        path.contains('\0') ==> relative(path) == Err::<Seq<Seq<char>>, Seq<char>>(
            "files: `"@ + path + "` contains a NUL byte"@,
        ),
        path.contains('\\') && !path.contains('\0') ==> relative(path) == Err::<
            Seq<Seq<char>>,
            Seq<char>,
        >(
            "files: `"@ + path
                + "` contains a backslash, and a path is `/`-separated and relative to the root this host grants"@,
        ),
        path.len() > 0 && path[0] == '/' && !path.contains('\0') && !path.contains('\\')
            ==> relative(path) == Err::<Seq<Seq<char>>, Seq<char>>(
            "files: `"@ + path
                + "` is absolute, and a path is relative to the root this host grants"@,
        ),
        path.len() > 0 && path[0] != '/' && !path.contains('\0') && !path.contains('\\')
            && relative(path) is Err ==> relative(path) == Err::<Seq<Seq<char>>, Seq<char>>(
            "files: `"@ + path + "` leaves the root this host grants"@,
        ),
        relative(path) matches Ok(parts) ==> parts == naming(pieces(path)) && keyed(path) == Ok::<
            Seq<char>,
            Seq<char>,
        >(slashed(parts)),
        relative(path) matches Err(message) ==> keyed(path) == Err::<Seq<char>, Seq<char>>(
            message,
        ),
{
    reveal_strlit("..");
    if pieces(path).contains(".."@) {
        let k = choose|k: int| 0 <= k < pieces(path).len() && pieces(path)[k] == ".."@;
        let i = lemma_where_a_piece_stands(path, k);
        assert(path.subrange(i, i + 2)[0] == '.' && path.subrange(i, i + 2)[1] == '.');
        assert(path[i] == '.');
    }
    if exists|i: int|
        {
            &&& 0 <= i
            &&& i + 2 <= path.len()
            &&& #[trigger] path[i] == '.'
            &&& path[i + 1] == '.'
            &&& i == 0 || path[i - 1] == '/'
            &&& i + 2 == path.len() || path[i + 2] == '/'
        } {
        let i = choose|i: int|
            {
                &&& 0 <= i
                &&& i + 2 <= path.len()
                &&& #[trigger] path[i] == '.'
                &&& path[i + 1] == '.'
                &&& i == 0 || path[i - 1] == '/'
                &&& i + 2 == path.len() || path[i + 2] == '/'
            };
        lemma_where_a_path_climbs(path, i);
    }
}

/// Of a place and the places above it, as far as they are there, the first that
/// is there stands at or below the root.
pub open spec fn stays_inside(root: Seq<Seq<char>>, places: Seq<Option<Vec<String>>>) -> bool {
    exists|i: int|
        {
            &&& 0 <= i < places.len()
            &&& (#[trigger] places[i]) is Some
            &&& forall|j: int| 0 <= j < i ==> #[trigger] places[j] is None
            &&& root.is_prefix_of(crate::names::texts(places[i]->0@))
        }
}

/// Whether a place is inside a root, links and all. `places` says of the place,
/// and then of each place above it, what it really is, if it is there: the
/// first that is there decides.
pub fn inside(root: &Vec<String>, places: &Vec<Option<Vec<String>>>) -> (yes: bool)
    ensures
        yes == stays_inside(crate::names::texts(root@), places@),
{
    let mut i: usize = 0;
    while i < places.len()
        invariant
            i <= places@.len(),
            forall|j: int| 0 <= j < i ==> #[trigger] places@[j] is None,
        decreases places@.len() - i,
    {
        if let Some(parts) = &places[i] {
            let yes = begins(parts, root);
            proof {
                let at = i as int;
                if yes {
                    assert(places@[at] is Some);
                }
                if stays_inside(crate::names::texts(root@), places@) {
                    let k = choose|k: int|
                        {
                            &&& 0 <= k < places@.len()
                            &&& (#[trigger] places@[k]) is Some
                            &&& forall|j: int| 0 <= j < k ==> #[trigger] places@[j] is None
                            &&& crate::names::texts(root@).is_prefix_of(
                                crate::names::texts(places@[k]->0@),
                            )
                        };
                    if k > at {
                        assert(places@[at] is None);
                    }
                    assert(k == at);
                }
            }
            return yes;
        }
        i = i + 1;
    }
    false
}

/// Whether some texts begin with these.
fn begins(parts: &Vec<String>, with: &Vec<String>) -> (yes: bool)
    ensures
        yes == crate::names::texts(with@).is_prefix_of(crate::names::texts(parts@)),
{
    let ghost whole = crate::names::texts(parts@);
    let ghost head = crate::names::texts(with@);
    if with.len() > parts.len() {
        return false;
    }
    let mut i: usize = 0;
    while i < with.len()
        invariant
            i <= with@.len() <= parts@.len(),
            whole == crate::names::texts(parts@),
            head == crate::names::texts(with@),
            forall|j: int| 0 <= j < i ==> #[trigger] head[j] == whole[j],
        decreases with@.len() - i,
    {
        if !crate::text::same(parts[i].as_str(), with[i].as_str()) {
            proof {
                assert(head[i as int] != whole[i as int]);
                if head.is_prefix_of(whole) {
                    assert(whole.subrange(0, head.len() as int)[i as int] == whole[i as int]);
                }
            }
            return false;
        }
        i = i + 1;
    }
    proof {
        assert(head =~= whole.subrange(0, head.len() as int));
    }
    true
}

/// A place is inside a root just when the first place, from it upwards, that is
/// there has the root's parts before its own; where none is there it is not.
pub proof fn the_first_place_that_is_there_decides(
    root: Seq<Seq<char>>,
    places: Seq<Option<Vec<String>>>,
    at: int,
)
    ensures
        (forall|i: int| 0 <= i < places.len() ==> #[trigger] places[i] is None) ==> !stays_inside(
            root,
            places,
        ),
        0 <= at < places.len() && places[at] is Some && (forall|j: int|
            0 <= j < at ==> #[trigger] places[j] is None) ==> (stays_inside(root, places) <==> {
            let parts = crate::names::texts(places[at]->0@);
            root.len() <= parts.len() && parts.take(root.len() as int) == root
        }),
{
    if 0 <= at < places.len() && places[at] is Some && (forall|j: int|
        0 <= j < at ==> #[trigger] places[j] is None) {
        let parts = crate::names::texts(places[at]->0@);
        if stays_inside(root, places) {
            let i = choose|i: int|
                {
                    &&& 0 <= i < places.len()
                    &&& (#[trigger] places[i]) is Some
                    &&& forall|j: int| 0 <= j < i ==> #[trigger] places[j] is None
                    &&& root.is_prefix_of(crate::names::texts(places[i]->0@))
                };
            assert(i == at) by {
                if i < at {
                    assert(places[i] is None);
                } else if at < i {
                    assert(places[at] is None);
                }
            }
            assert(parts.take(root.len() as int) =~= root);
        }
        if root.len() <= parts.len() && parts.take(root.len() as int) == root {
            assert(root.is_prefix_of(parts));
            assert(places[at] is Some);
        }
    }
}

/// A plain name is one that is not empty, is neither `.` nor `..`, and holds
/// neither kind of slash nor a NUL.
pub proof fn what_a_plain_name_is(name: Seq<char>)
    ensures
        plain(name) <==> {
            &&& name != Seq::<char>::empty()
            &&& name != seq!['.']
            &&& name != seq!['.', '.']
            &&& forall|i: int|
                0 <= i < name.len() ==> #[trigger] name[i] != '/' && name[i] != '\\' && name[i]
                    != '\0'
        },
{
    reveal_strlit(".");
    reveal_strlit("..");
    assert("."@ =~= seq!['.']);
    assert(".."@ =~= seq!['.', '.']);
    assert(name.len() == 0 ==> name =~= Seq::empty());
    if plain(name) {
        assert forall|i: int| 0 <= i < name.len() implies #[trigger] name[i] != '/' && name[i]
            != '\\' && name[i] != '\0' by {
            assert(name.contains(name[i]));
        }
    }
}

/// A plain name is a path of one part, which is its own key.
pub proof fn a_plain_name_is_its_own_key(name: Seq<char>)
    requires
        plain(name),
    ensures
        relative(name) == Ok::<Seq<Seq<char>>, Seq<char>>(seq![name]),
        keyed(name) == Ok::<Seq<char>, Seq<char>>(name),
{
    lemma_one_piece(name);
    let all = seq![name];
    let gone = Seq::<Seq<char>>::empty();
    reveal_strlit(".");
    assert("."@ =~= seq!['.']);
    every_piece_names_something_but_none_and_the_dot(gone, name, gone);
    assert(gone + seq![name] + gone =~= all);
    if all.contains(".."@) {
        let i = choose|i: int| 0 <= i < all.len() && all[i] == ".."@;
        assert(all[i] == name);
    }
    if name[0] == '/' {
        assert(name.contains('/'));
    }
}

/// `.` is the root, and what a path adds to it by `.` and by more `/`s leads to
/// the same key.
pub proof fn a_dot_leads_nowhere_else(path: Seq<char>)
    requires
        relative(path) is Ok,
    ensures
        keyed(seq!['.']) == Ok::<Seq<char>, Seq<char>>(Seq::empty()),
        keyed(seq!['.', '/'] + path) == keyed(path),
        keyed(path + seq!['/']) == keyed(path),
        keyed(path + seq!['/', '.']) == keyed(path),
{
    let none = Seq::<char>::empty();
    let dot = seq!['.'];
    let gone = Seq::<Seq<char>>::empty();
    reveal_strlit(".");
    reveal_strlit("..");
    lemma_one_piece(dot);
    lemma_one_piece(none);
    every_piece_names_something_but_none_and_the_dot(gone, dot, gone);
    assert(gone + seq![dot] + gone =~= seq![dot]);
    assert(naming(seq![dot]) =~= gone);
    a_path_is_refused_for_what_it_holds(dot);
    assert(seq!['.', '/'] + path =~= dot + seq!['/'] + path);
    assert(path + seq!['/'] =~= path + seq!['/'] + none);
    assert(path + seq!['/', '.'] =~= path + seq!['/'] + dot);
    lemma_stays_refused_or_not(seq!['.', '/'] + path, path, dot, true);
    lemma_stays_refused_or_not(path + seq!['/'], path, none, false);
    lemma_stays_refused_or_not(path + seq!['/', '.'], path, dot, false);
    if seq![dot].contains(".."@) {
        let i = choose|i: int| 0 <= i < seq![dot].len() && seq![dot][i] == ".."@;
        assert(seq![dot][i] == dot);
        assert(dot.len() != ".."@.len());
    }
    assert(!dot.contains('\0'));
    assert(!dot.contains('\\'));
}

/// A path with a part before it or after it that names nothing.
proof fn lemma_stays_refused_or_not(
    whole: Seq<char>,
    path: Seq<char>,
    part: Seq<char>,
    before: bool,
)
    requires
        relative(path) is Ok,
        part == Seq::<char>::empty() || part == seq!['.'],
        before ==> part.len() > 0 && whole == part + seq!['/'] + path,
        !before ==> whole == path + seq!['/'] + part,
    ensures
        relative(whole) == relative(path),
{
    let gone = Seq::<Seq<char>>::empty();
    reveal_strlit("..");
    reveal_strlit(".");
    lemma_one_piece(part);
    let parts = pieces(path);
    if before {
        a_text_is_cut_at_a_slash(part, path);
        every_piece_names_something_but_none_and_the_dot(gone, part, parts);
        assert(gone + seq![part] + parts =~= pieces(whole));
        assert(naming(pieces(whole)) =~= naming(parts));
    } else {
        a_text_is_cut_at_a_slash(path, part);
        every_piece_names_something_but_none_and_the_dot(parts, part, gone);
        assert(parts + seq![part] + gone =~= pieces(whole));
        assert(naming(pieces(whole)) =~= naming(parts));
    }
    assert forall|c: char| c != '/' && c != '.' && #[trigger] whole.contains(c) implies path.contains(
        c,
    ) by {
        let i = choose|i: int| 0 <= i < whole.len() && whole[i] == c;
        if before {
            if i > part.len() {
                assert(path[i - part.len() - 1] == c);
            }
        } else if i < path.len() {
            assert(path[i] == c);
        }
    }
    if pieces(whole).contains(".."@) {
        let k = choose|k: int| 0 <= k < pieces(whole).len() && pieces(whole)[k] == ".."@;
        if before {
            if k > 0 {
                assert(parts[k - 1] == ".."@);
            } else {
                assert(part.len() != ".."@.len());
            }
        } else if k < parts.len() {
            assert(parts[k] == ".."@);
        } else {
            assert(part.len() != ".."@.len());
        }
    }
    assert(whole[0] != '/');
}

} // verus!
