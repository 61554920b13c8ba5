//! `dsi selfuninstall`: undoing the installer's shell profile changes while
//! keeping the .NET SDK paths usable.
use vstd::prelude::*;
use crate::paths::{join_path, path_join};
use crate::lines::{
    join_lines, lemma_lines_of_pieces, lemma_pieces_append, lemma_pieces_single, lines_chars, lines_of, pieces,
    strip_cr, terminate_all, trim, trim_chars,
};
use crate::text::{append_chars, chars_eq, chars_of, split_on, string_from_chars, views};

verus! {

/// The first line of the block that the installer writes into a shell profile.
pub const MARKER_BEGIN: &'static str = "# >>> dsi >>>";

/// The last line of that block.
pub const MARKER_END: &'static str = "# <<< dsi <<<";

/// The arguments of `dsi selfuninstall`.
pub struct SelfUninstallArgs {
    /// Skip the confirmation prompt
    pub yes: bool,
}

/// The syntax of a shell profile.
#[derive(PartialEq, Eq, Structural, Clone, Copy, Debug)]
pub enum ProfileStyle {
    Posix,
    Fish,
    Powershell,
    Nushell,
}

/// The profile lines that set the .NET SDK paths for `root`.
pub open spec fn spec_dotnet_lines(style: ProfileStyle, root: Seq<char>) -> Seq<Seq<char>> {
    match style {
        ProfileStyle::Posix => seq![
            "export DOTNET_ROOT=\""@ + root + "\""@,
            "export PATH=\""@ + root + ":"@ + root + "/tools:$PATH\""@,
        ],
        ProfileStyle::Fish => seq![
            "set -gx DOTNET_ROOT \""@ + root + "\""@,
            "fish_add_path \""@ + root + "\" \""@ + root + "/tools\""@,
        ],
        ProfileStyle::Powershell => seq![
            "$env:DOTNET_ROOT = \""@ + root + "\""@,
            "$env:PATH = \""@ + root + ":"@ + root + "/tools:$env:PATH\""@,
        ],
        ProfileStyle::Nushell => seq![
            "$env.DOTNET_ROOT = \""@ + root + "\""@,
            "$env.PATH = ($env.PATH | prepend [\""@ + root + "\" \""@ + root + "/tools\"])"@,
        ],
    }
}

/// `a + root + b`.
fn around(a: &str, root: &str, b: &str) -> (r: String)
    ensures
        r@ == a@ + root@ + b@,
{
    let mut s = String::from_str(a);
    s.append(root);
    s.append(b);
    s
}

/// `a + root + b + root + c`.
fn around2(a: &str, root: &str, b: &str, c: &str) -> (r: String)
    ensures
        r@ == a@ + root@ + b@ + root@ + c@,
{
    let mut s = String::from_str(a);
    s.append(root);
    s.append(b);
    s.append(root);
    s.append(c);
    s
}

impl ProfileStyle {
    /// The block lines to keep: only the .NET SDK paths, mirroring what
    /// the installer writes minus the dsi bin dir and completion hook.
    pub fn dotnet_lines(&self, root: &str) -> (r: Vec<String>)
        ensures
            r.deep_view() == spec_dotnet_lines(*self, root@),
    {
        let (first, second) = match self {
            ProfileStyle::Posix => (
                around("export DOTNET_ROOT=\"", root, "\""),
                around2("export PATH=\"", root, ":", "/tools:$PATH\""),
            ),
            ProfileStyle::Fish => (
                around("set -gx DOTNET_ROOT \"", root, "\""),
                around2("fish_add_path \"", root, "\" \"", "/tools\""),
            ),
            ProfileStyle::Powershell => (
                around("$env:DOTNET_ROOT = \"", root, "\""),
                around2("$env:PATH = \"", root, ":", "/tools:$env:PATH\""),
            ),
            ProfileStyle::Nushell => (
                around("$env.DOTNET_ROOT = \"", root, "\""),
                around2("$env.PATH = ($env.PATH | prepend [\"", root, "\" \"", "/tools\"])"),
            ),
        };
        let mut v: Vec<String> = Vec::new();
        v.push(first);
        v.push(second);
        assert(v.deep_view() =~= spec_dotnet_lines(*self, root@));
        v
    }
}

/// One line of the replay: lines outside a dsi block are kept, a begin
/// marker is replaced by the replacement block (markers kept; nothing when the
/// replacement is empty) and opens a block, an end marker closes it, and lines
/// inside a block are dropped. The state is the output so far and whether a
/// block is open.
pub open spec fn rewrite_step(
    state: (Seq<Seq<char>>, bool),
    line: Seq<char>,
    repl: Seq<Seq<char>>,
) -> (Seq<Seq<char>>, bool) {
    let (out, in_block) = state;
    if trim(line) == MARKER_BEGIN@ {
        (
            if repl.len() == 0 {
                out
            } else {
                out + seq![MARKER_BEGIN@] + repl + seq![MARKER_END@]
            },
            true,
        )
    } else if trim(line) == MARKER_END@ {
        (out, false)
    } else if !in_block {
        (out.push(line), false)
    } else {
        (out, true)
    }
}

/// Replaying the profile's lines one by one from an empty output outside
/// any block.
pub open spec fn rewrite_lines(ls: Seq<Seq<char>>, repl: Seq<Seq<char>>) -> (Seq<Seq<char>>, bool)
    decreases ls.len(),
{
    if ls.len() == 0 {
        (Seq::empty(), false)
    } else {
        rewrite_step(rewrite_lines(ls.drop_last(), repl), ls.last(), repl)
    }
}

/// Some line of the profile is a begin marker (surrounding whitespace ignored).
pub open spec fn has_block(ls: Seq<Seq<char>>) -> bool {
    exists|i: int| 0 <= i < ls.len() && trim(#[trigger] ls[i]) == MARKER_BEGIN@
}

/// The new profile text, or `None` when the profile has no dsi block or the
/// rewrite would not change it.
pub open spec fn cleaned_profile(content: Seq<char>, repl: Seq<Seq<char>>) -> Option<Seq<char>> {
    let ls = lines_of(content);
    if !has_block(ls) {
        None
    } else {
        let new = join_lines(rewrite_lines(ls, repl).0);
        if new == content {
            None
        } else {
            Some(new)
        }
    }
}

/// Replace the dsi block in a profile's text with `replacement` lines
/// (markers kept), or strip the block entirely when `replacement` is empty.
/// Returns the new text when it differs from the old one.
pub fn rewrite_profile(content: &str, replacement: &Vec<String>) -> (r: Option<String>)
    ensures
        match cleaned_profile(content@, replacement.deep_view()) {
            Some(new) => r matches Some(v) && v@ == new,
            None => r is None,
        },
{
    let ghost repl = replacement.deep_view();
    let cs = chars_of(content);
    let ls = lines_chars(cs.as_slice());
    let ghost lv = views(ls@);
    let begin = chars_of(MARKER_BEGIN);
    let end = chars_of(MARKER_END);
    let mut repl_chars: Vec<Vec<char>> = Vec::new();
    let mut k: usize = 0;
    while k < replacement.len()
        invariant
            k <= replacement.len(),
            repl == replacement.deep_view(),
            views(repl_chars@) =~= repl.take(k as int),
        decreases replacement.len() - k,
    {
        let ghost before = views(repl_chars@);
        repl_chars.push(chars_of(replacement[k].as_str()));
        assert(repl.take(k + 1) =~= repl.take(k as int).push(replacement@[k as int]@));
        assert(views(repl_chars@) =~= before.push(replacement@[k as int]@));
        k = k + 1;
    }
    assert(repl.take(replacement.len() as int) =~= repl);

    let mut found = false;
    let mut i: usize = 0;
    while i < ls.len()
        invariant
            i <= ls.len(),
            lv == views(ls@),
            begin@ == MARKER_BEGIN@,
            found <==> exists|j: int| 0 <= j < i && trim(#[trigger] lv[j]) == MARKER_BEGIN@,
        decreases ls.len() - i,
    {
        let t = trim_chars(ls[i].as_slice());
        assert(lv[i as int] == ls@[i as int]@);
        if chars_eq(t.as_slice(), begin.as_slice()) {
            found = true;
        }
        i = i + 1;
    }
    if !found {
        return None;
    }

    let mut out: Vec<Vec<char>> = Vec::new();
    let mut in_block = false;
    let mut i: usize = 0;
    assert(lv.take(0) =~= Seq::<Seq<char>>::empty());
    while i < ls.len()
        invariant
            i <= ls.len(),
            lv == views(ls@),
            begin@ == MARKER_BEGIN@,
            end@ == MARKER_END@,
            views(repl_chars@) == repl,
            (views(out@), in_block) == rewrite_lines(lv.take(i as int), repl),
        decreases ls.len() - i,
    {
        let line = ls[i].as_slice();
        assert(lv[i as int] == line@);
        assert(lv.take(i + 1).drop_last() =~= lv.take(i as int));
        let t = trim_chars(line);
        let ghost before = views(out@);
        if chars_eq(t.as_slice(), begin.as_slice()) {
            in_block = true;
            if repl_chars.len() > 0 {
                let bcopy = crate::version::sub_chars(begin.as_slice(), 0, begin.len());
                assert(bcopy@ =~= begin@);
                out.push(bcopy);
                assert(views(out@) =~= before + seq![MARKER_BEGIN@]);
                assert(views(repl_chars@).take(0) =~= Seq::<Seq<char>>::empty());
                let mut q: usize = 0;
                while q < repl_chars.len()
                    invariant
                        q <= repl_chars.len(),
                        views(out@) =~= before + seq![MARKER_BEGIN@] + views(repl_chars@).take(q as int),
                    decreases repl_chars.len() - q,
                {
                    let piece = repl_chars[q].as_slice();
                    let copy = crate::version::sub_chars(piece, 0, piece.len());
                    assert(copy@ =~= piece@);
                    let ghost pv = views(out@);
                    out.push(copy);
                    assert(views(out@) =~= pv.push(piece@));
                    assert(views(repl_chars@)[q as int] == piece@);
                    assert(views(repl_chars@).take(q + 1) =~= views(repl_chars@).take(q as int).push(piece@));
                    q = q + 1;
                }
                assert(views(repl_chars@).take(repl_chars.len() as int) =~= views(repl_chars@));
                let ecopy = crate::version::sub_chars(end.as_slice(), 0, end.len());
                assert(ecopy@ =~= end@);
                let ghost pv = views(out@);
                out.push(ecopy);
                assert(views(out@) =~= pv.push(MARKER_END@));
                assert(views(out@) =~= before + seq![MARKER_BEGIN@] + repl + seq![MARKER_END@]);
            }
        } else if chars_eq(t.as_slice(), end.as_slice()) {
            in_block = false;
        } else if !in_block {
            let copy = crate::version::sub_chars(line, 0, line.len());
            assert(copy@ =~= line@);
            out.push(copy);
            assert(views(out@) =~= before.push(line@));
        }
        i = i + 1;
    }
    assert(lv.take(ls.len() as int) =~= lv);

    let mut text: Vec<char> = Vec::new();
    let mut j: usize = 0;
    assert(views(out@).take(0) =~= Seq::<Seq<char>>::empty());
    while j < out.len()
        invariant
            j <= out.len(),
            text@ == terminate_all(views(out@).take(j as int)),
        decreases out.len() - j,
    {
        assert(views(out@).take(j + 1).drop_last() =~= views(out@).take(j as int));
        assert(views(out@)[j as int] == out@[j as int]@);
        append_chars(&mut text, out[j].as_slice());
        text.push('\n');
        j = j + 1;
    }
    assert(views(out@).take(out.len() as int) =~= views(out@));
    if out.len() == 0 {
        text.push('\n');
        assert(text@ =~= seq!['\n']);
    }
    if chars_eq(text.as_slice(), cs.as_slice()) {
        None
    } else {
        Some(string_from_chars(text.as_slice()))
    }
}

// ───────────────────────────── laws ─────────────────────────────

/// The profile files the installer may have configured, with their syntax:
/// under `home`, except the zsh profile, which lives under `zdotdir` when that
/// is set.
pub open spec fn spec_profile_files(home: Seq<char>, zdotdir: Option<Seq<char>>) -> Seq<(Seq<char>, ProfileStyle)> {
    let zdot = match zdotdir {
        Some(z) => z,
        None => home,
    };
    seq![
        (path_join(home, ".bashrc"@), ProfileStyle::Posix),
        (path_join(zdot, ".zshrc"@), ProfileStyle::Posix),
        (path_join(home, ".config/fish/config.fish"@), ProfileStyle::Fish),
        (path_join(home, ".config/powershell/Microsoft.PowerShell_profile.ps1"@), ProfileStyle::Powershell),
        (path_join(home, ".config/nushell/config.nu"@), ProfileStyle::Nushell),
    ]
}

/// The profile files the installer may have configured, given the home
/// directory and the value of `ZDOTDIR` when it is set.
pub fn profile_files(home: &str, zdotdir: Option<&str>) -> (r: Vec<(String, ProfileStyle)>)
    ensures
        r@.map_values(|p: (String, ProfileStyle)| (p.0@, p.1)) == spec_profile_files(
            home@,
            match zdotdir {
                Some(z) => Some(z@),
                None => None,
            },
        ),
{
    let zdot: &str = match zdotdir {
        Some(z) => z,
        None => home,
    };
    let mut r: Vec<(String, ProfileStyle)> = Vec::new();
    r.push((join_path(home, ".bashrc"), ProfileStyle::Posix));
    r.push((join_path(zdot, ".zshrc"), ProfileStyle::Posix));
    r.push((join_path(home, ".config/fish/config.fish"), ProfileStyle::Fish));
    r.push((join_path(home, ".config/powershell/Microsoft.PowerShell_profile.ps1"), ProfileStyle::Powershell));
    r.push((join_path(home, ".config/nushell/config.nu"), ProfileStyle::Nushell));
    assert(r@.map_values(|p: (String, ProfileStyle)| (p.0@, p.1)) =~= spec_profile_files(
        home@,
        match zdotdir {
            Some(z) => Some(z@),
            None => None,
        },
    ));
    r
}

/// A line that ends in "\r".
pub open spec fn ends_in_cr(line: Seq<char>) -> bool {
    line.len() > 0 && line.last() == '\r'
}

/// The text written for a replay's output: its lines, one per line, or a
/// single empty line when there are none.
proof fn lemma_join_written(out: Seq<Seq<char>>)
    ensures
        join_lines(out) == terminate_all(if out.len() == 0 { seq![Seq::<char>::empty()] } else { out }),
{
    if out.len() == 0 {
        let w = seq![Seq::<char>::empty()];
        assert(w.drop_last() =~= Seq::<Seq<char>>::empty());
        assert(terminate_all(w) == terminate_all(w.drop_last()) + w.last() + seq!['\n']);
        assert(terminate_all(Seq::<Seq<char>>::empty()) == Seq::<char>::empty());
        assert(terminate_all(w) =~= seq!['\n']);
    }
}

/// What the two markers are made of.
proof fn lemma_markers()
    ensures
        trim(MARKER_BEGIN@) == MARKER_BEGIN@,
        trim(MARKER_END@) == MARKER_END@,
        MARKER_BEGIN@ != MARKER_END@,
        MARKER_BEGIN@.len() > 0,
        MARKER_END@.len() > 0,
        MARKER_BEGIN@.last() != '\r',
        MARKER_END@.last() != '\r',
        forall|i: int| 0 <= i < MARKER_BEGIN@.len() ==> MARKER_BEGIN@[i] != '\n',
        forall|i: int| 0 <= i < MARKER_END@.len() ==> MARKER_END@[i] != '\n',
{
    reveal_strlit("# >>> dsi >>>");
    reveal_strlit("# <<< dsi <<<");
    assert(MARKER_BEGIN@[2] != MARKER_END@[2]);
}

/// Replaying one more line is one more step.
proof fn lemma_rewrite_push(ls: Seq<Seq<char>>, line: Seq<char>, repl: Seq<Seq<char>>)
    ensures
        rewrite_lines(ls.push(line), repl) == rewrite_step(rewrite_lines(ls, repl), line, repl),
{
    assert(ls.push(line).drop_last() =~= ls);
}

/// Inside an open block, lines that are not markers are dropped.
proof fn lemma_rewrite_skip_block(ls: Seq<Seq<char>>, more: Seq<Seq<char>>, repl: Seq<Seq<char>>)
    requires
        rewrite_lines(ls, repl).1,
        forall|k: int| 0 <= k < more.len() ==> trim(#[trigger] more[k]) != MARKER_BEGIN@ && trim(more[k]) != MARKER_END@,
    ensures
        rewrite_lines(ls + more, repl) == rewrite_lines(ls, repl),
    decreases more.len(),
{
    if more.len() == 0 {
        assert(ls + more =~= ls);
    } else {
        let init = more.drop_last();
        assert forall|k: int| 0 <= k < init.len() implies trim(#[trigger] init[k]) != MARKER_BEGIN@ && trim(init[k])
            != MARKER_END@ by {
            assert(init[k] == more[k]);
        }
        lemma_rewrite_skip_block(ls, init, repl);
        assert(ls + more =~= (ls + init).push(more.last()));
        lemma_rewrite_push(ls + init, more.last(), repl);
        assert(more.last() == more[more.len() - 1]);
    }
}

/// With an empty replacement, no line of the result is a begin marker, and
/// the result holds no line break when the lines replayed hold none.
proof fn lemma_stripped_lines(ls: Seq<Seq<char>>)
    requires
        forall|k: int, i: int| 0 <= k < ls.len() && 0 <= i < ls[k].len() ==> ls[k][i] != '\n',
    ensures
        forall|k: int| 0 <= k < rewrite_lines(ls, Seq::empty()).0.len() ==> trim(
            #[trigger] rewrite_lines(ls, Seq::empty()).0[k],
        ) != MARKER_BEGIN@,
        forall|k: int, i: int|
            0 <= k < rewrite_lines(ls, Seq::empty()).0.len() && 0 <= i < rewrite_lines(ls, Seq::empty()).0[k].len()
                ==> rewrite_lines(ls, Seq::empty()).0[k][i] != '\n',
    decreases ls.len(),
{
    if ls.len() > 0 {
        let e = Seq::<Seq<char>>::empty();
        let init = ls.drop_last();
        assert forall|k: int, i: int| 0 <= k < init.len() && 0 <= i < init[k].len() implies init[k][i] != '\n' by {
            assert(init[k] == ls[k]);
        }
        lemma_stripped_lines(init);
        let line = ls.last();
        assert(line == ls[ls.len() - 1]);
        let prev = rewrite_lines(init, e).0;
        let out = rewrite_lines(ls, e).0;
        assert(rewrite_lines(ls, e) == rewrite_step(rewrite_lines(init, e), line, e));
        assert forall|k: int| 0 <= k < out.len() implies trim(#[trigger] out[k]) != MARKER_BEGIN@ && forall|i: int|
            0 <= i < out[k].len() ==> out[k][i] != '\n' by {
            if k < prev.len() {
                assert(out[k] == prev[k]);
            } else {
                assert(out[k] == line);
            }
        }
    }
}

/// Stripping the dsi block leaves none behind: after the block is removed
/// (an empty replacement), no line of the new profile is a begin marker, so
/// cleaning the new profile again finds nothing to do.
pub proof fn lemma_stripping_leaves_no_block(content: Seq<char>)
    ensures
        ({
            let new = join_lines(rewrite_lines(lines_of(content), Seq::empty()).0);
            &&& !has_block(lines_of(new))
            &&& cleaned_profile(new, Seq::empty()) is None
        }),
{
    lemma_markers();
    let ls = lines_of(content);
    crate::lines::lemma_lines_no_newline(content);
    lemma_stripped_lines(ls);
    let out = rewrite_lines(ls, Seq::empty()).0;
    let written = if out.len() == 0 { seq![Seq::<char>::empty()] } else { out };
    lemma_join_written(out);
    crate::lines::lemma_lines_of_terminated(written);
    let back = lines_of(join_lines(out));
    assert forall|i: int| 0 <= i < back.len() implies trim(#[trigger] back[i]) != MARKER_BEGIN@ by {
        crate::lines::lemma_trim_strip_cr(written[i]);
        if out.len() == 0 {
            assert(trim(Seq::<char>::empty()) =~= Seq::<char>::empty());
        }
    }
}

/// Line `i` of the profile is kept by the replay as it stands: it is no
/// marker and no block is open before it.
pub open spec fn kept_line(ls: Seq<Seq<char>>, i: int, repl: Seq<Seq<char>>) -> bool {
    &&& trim(ls[i]) != MARKER_BEGIN@
    &&& trim(ls[i]) != MARKER_END@
    &&& !rewrite_lines(ls.take(i), repl).1
}

/// No line of any replacement text is, up to surrounding whitespace, a marker.
pub open spec fn replacement_plain(repl: Seq<Seq<char>>) -> bool {
    forall|k: int, j: int|
        0 <= k < repl.len() && 0 <= j < split_on(repl[k], '\n').len() ==> trim(
            #[trigger] split_on(repl[k], '\n')[j],
        ) != MARKER_BEGIN@ && trim(split_on(repl[k], '\n')[j]) != MARKER_END@
}

/// What lines written out one per line read back as: split at their line
/// breaks, with one "\r" taken off the end of each piece.
pub open spec fn read_back(out: Seq<Seq<char>>) -> Seq<Seq<char>> {
    pieces(out).map_values(|l: Seq<char>| strip_cr(l))
}

proof fn lemma_read_back_append(a: Seq<Seq<char>>, b: Seq<Seq<char>>)
    ensures
        read_back(a + b) == read_back(a) + read_back(b),
{
    lemma_pieces_append(a, b);
    assert(read_back(a + b) =~= read_back(a) + read_back(b));
}

/// A line without line breaks that does not end in "\r" reads back as itself.
proof fn lemma_read_back_plain_line(x: Seq<char>)
    requires
        forall|i: int| 0 <= i < x.len() ==> x[i] != '\n',
        !ends_in_cr(x),
    ensures
        read_back(seq![x]) == seq![x],
{
    lemma_pieces_single(x);
    assert(read_back(seq![x]) =~= seq![x]);
}

/// No piece of plain replacement texts is a marker, even read back.
proof fn lemma_read_back_trims(repl: Seq<Seq<char>>)
    requires
        replacement_plain(repl),
    ensures
        forall|q: int| 0 <= q < read_back(repl).len() ==> trim(#[trigger] read_back(repl)[q]) != MARKER_BEGIN@
            && trim(read_back(repl)[q]) != MARKER_END@,
    decreases repl.len(),
{
    if repl.len() > 0 {
        let init = repl.drop_last();
        assert forall|k: int, j: int| 0 <= k < init.len() && 0 <= j < split_on(init[k], '\n').len() implies trim(
            #[trigger] split_on(init[k], '\n')[j],
        ) != MARKER_BEGIN@ && trim(split_on(init[k], '\n')[j]) != MARKER_END@ by {
            assert(init[k] == repl[k]);
        }
        lemma_read_back_trims(init);
        let last = split_on(repl.last(), '\n');
        assert(pieces(repl) == pieces(init) + last);
        assert forall|q: int| 0 <= q < read_back(repl).len() implies trim(#[trigger] read_back(repl)[q])
            != MARKER_BEGIN@ && trim(read_back(repl)[q]) != MARKER_END@ by {
            let pc = pieces(repl)[q];
            crate::lines::lemma_trim_strip_cr(pc);
            if q < pieces(init).len() {
                assert(read_back(init)[q] == strip_cr(pieces(init)[q]));
                crate::lines::lemma_trim_strip_cr(pieces(init)[q]);
            } else {
                let j = q - pieces(init).len();
                assert(pc == last[j]);
                assert(repl.last() == repl[repl.len() - 1]);
                assert(trim(split_on(repl[repl.len() - 1], '\n')[j]) != MARKER_BEGIN@);
            }
        }
    }
}

/// Reading back what a replay wrote and replaying it again gives the same
/// output, outside any block, when the replacement is plain and no line kept
/// as it stands ends in "\r".
proof fn lemma_replay_read_back(ls: Seq<Seq<char>>, repl: Seq<Seq<char>>)
    requires
        forall|k: int, i: int| 0 <= k < ls.len() && 0 <= i < ls[k].len() ==> ls[k][i] != '\n',
        replacement_plain(repl),
        forall|i: int| 0 <= i < ls.len() && #[trigger] kept_line(ls, i, repl) ==> !ends_in_cr(ls[i]),
    ensures
        rewrite_lines(read_back(rewrite_lines(ls, repl).0), repl) == (rewrite_lines(ls, repl).0, false),
    decreases ls.len(),
{
    if ls.len() == 0 {
        assert(read_back(Seq::<Seq<char>>::empty()) =~= Seq::<Seq<char>>::empty());
    } else {
        lemma_markers();
        let init = ls.drop_last();
        let line = ls.last();
        let n = ls.len() - 1;
        assert(line == ls[n]);
        assert(ls.take(n) =~= init);
        assert forall|k: int, i: int| 0 <= k < init.len() && 0 <= i < init[k].len() implies init[k][i] != '\n' by {
            assert(init[k] == ls[k]);
        }
        assert forall|i: int| 0 <= i < init.len() && #[trigger] kept_line(init, i, repl) implies !ends_in_cr(init[i]) by {
            assert(init.take(i) =~= ls.take(i));
            assert(init[i] == ls[i]);
            assert(kept_line(ls, i, repl));
        }
        lemma_replay_read_back(init, repl);
        let prev = rewrite_lines(init, repl).0;
        let x = read_back(prev);
        assert forall|i: int| 0 <= i < line.len() implies line[i] != '\n' by {
            assert(ls[n][i] != '\n');
        }
        if trim(line) == MARKER_BEGIN@ {
            if repl.len() > 0 {
                let r = read_back(repl);
                lemma_read_back_append(prev + seq![MARKER_BEGIN@] + repl, seq![MARKER_END@]);
                lemma_read_back_append(prev + seq![MARKER_BEGIN@], repl);
                lemma_read_back_append(prev, seq![MARKER_BEGIN@]);
                lemma_read_back_plain_line(MARKER_BEGIN@);
                lemma_read_back_plain_line(MARKER_END@);
                lemma_read_back_trims(repl);
                assert(read_back(prev + seq![MARKER_BEGIN@] + repl + seq![MARKER_END@]) =~= (x.push(MARKER_BEGIN@)
                    + r).push(MARKER_END@));
                lemma_rewrite_push(x, MARKER_BEGIN@, repl);
                lemma_rewrite_skip_block(x.push(MARKER_BEGIN@), r, repl);
                lemma_rewrite_push(x.push(MARKER_BEGIN@) + r, MARKER_END@, repl);
            }
        } else if trim(line) == MARKER_END@ {
        } else if !rewrite_lines(init, repl).1 {
            assert(kept_line(ls, n, repl));
            lemma_read_back_append(prev, seq![line]);
            lemma_read_back_plain_line(line);
            assert(prev.push(line) =~= prev + seq![line]);
            assert(read_back(prev.push(line)) =~= x.push(line));
            lemma_rewrite_push(x, line, repl);
        }
    }
}

/// Cleaning a profile settles it: when cleaning rewrites the profile,
/// cleaning the new profile again with the same replacement changes nothing.
/// This holds when no line of a replacement text is (up to surrounding
/// whitespace) a marker, and, when a block is replaced by lines, no line that
/// the cleaning keeps as it stands ends in "\r" (such a line would lose it
/// when the text is read back).
pub proof fn lemma_cleaning_settles(content: Seq<char>, repl: Seq<Seq<char>>)
    requires
        replacement_plain(repl),
        repl.len() > 0 && has_block(lines_of(content)) ==> forall|i: int|
            0 <= i < lines_of(content).len() && #[trigger] kept_line(lines_of(content), i, repl) ==> !ends_in_cr(
                lines_of(content)[i],
            ),
    ensures
        cleaned_profile(content, repl) matches Some(new) ==> cleaned_profile(new, repl) is None,
{
    let ls = lines_of(content);
    if !has_block(ls) {
    } else if repl.len() == 0 {
        assert(repl =~= Seq::<Seq<char>>::empty());
        lemma_stripping_leaves_no_block(content);
    } else {
        lemma_markers();
        crate::lines::lemma_lines_no_newline(content);
        lemma_replay_read_back(ls, repl);
        let out = rewrite_lines(ls, repl).0;
        let new = join_lines(out);
        if out.len() == 0 {
            let w = seq![Seq::<char>::empty()];
            lemma_join_written(out);
            crate::lines::lemma_lines_of_terminated(w);
            assert(lines_of(new) =~= w);
            assert(trim(Seq::<char>::empty()) =~= Seq::<char>::empty());
            assert(!has_block(lines_of(new)));
        } else {
            lemma_lines_of_pieces(out);
            assert(new == terminate_all(out));
            assert(lines_of(new) == read_back(out));
        }
    }
}

} // verus!
