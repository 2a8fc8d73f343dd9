//! The workspace widget: the workspaces of one screen, each shown by the icons of
//! its windows, as one waybar line.

use vstd::prelude::*;
use crate::number::{decimal, decimal_chars};
use crate::text::{
    chars_of, contains, contains_chars, copy_range, join, join_chars, lemma_concat_lacks,
    lemma_join_lacks, lemma_join_split, lemma_remove_all_absent, lemma_split_on_absent,
    lemma_split_on_concat, lemma_remove_all_prefix_kept, lemma_remove_all_leading,
    lemma_remove_all_char_concat, occurs_at,
    lowercase_alike, lowercases_to, none_contain,
    lowercases_to_chars, remove_all, remove_matches, same_chars, split_chars, split_on,
    string_of, views,
};
use crate::waybar::{lemma_waybar_line_is_one_line, waybar_json, waybar_line};

verus! {

/// The workspace representations by workspace name, one value per name.
pub struct WorkspaceReprs {
    entries: Vec<(String, String)>,
}

/// No two entries have the same name.
pub open spec fn distinct_names(entries: Seq<(String, String)>) -> bool {
    forall|i: int, j: int|
        0 <= i < j < entries.len() ==> #[trigger] entries[i].0@ != #[trigger] entries[j].0@
}

/// The map that the entries make, a later entry winning over an earlier one.
pub open spec fn entries_map(entries: Seq<(String, String)>) -> Map<Seq<char>, Seq<char>>
    decreases entries.len(),
{
    if entries.len() == 0 {
        Map::empty()
    } else {
        entries_map(entries.drop_last()).insert(entries.last().0@, entries.last().1@)
    }
}

proof fn lemma_entries_map_has(entries: Seq<(String, String)>, i: int)
    requires
        distinct_names(entries),
        0 <= i < entries.len(),
    ensures
        entries_map(entries).contains_key(entries[i].0@),
        entries_map(entries)[entries[i].0@] == entries[i].1@,
    decreases entries.len(),
{
    if i < entries.len() - 1 {
        let rest = entries.drop_last();
        assert(rest[i] == entries[i]);
        lemma_entries_map_has(rest, i);
        assert(entries[i].0@ != entries.last().0@);
    }
}

proof fn lemma_entries_map_lacks(entries: Seq<(String, String)>, k: Seq<char>)
    requires
        forall|i: int| 0 <= i < entries.len() ==> #[trigger] entries[i].0@ != k,
    ensures
        !entries_map(entries).contains_key(k),
    decreases entries.len(),
{
    if entries.len() > 0 {
        let rest = entries.drop_last();
        assert forall|i: int| 0 <= i < rest.len() implies #[trigger] rest[i].0@ != k by {
            assert(rest[i] == entries[i]);
        }
        lemma_entries_map_lacks(rest, k);
        assert(entries[entries.len() - 1].0@ != k);
    }
}

proof fn lemma_entries_map_update(entries: Seq<(String, String)>, i: int, e: (String, String))
    requires
        distinct_names(entries),
        0 <= i < entries.len(),
        e.0@ == entries[i].0@,
    ensures
        entries_map(entries.update(i, e)) == entries_map(entries).insert(e.0@, e.1@),
    decreases entries.len(),
{
    let upd = entries.update(i, e);
    let rest = entries.drop_last();
    if i == entries.len() - 1 {
        assert(upd.drop_last() =~= rest);
        assert(entries_map(upd) =~= entries_map(entries).insert(e.0@, e.1@));
    } else {
        assert(upd.drop_last() =~= rest.update(i, e));
        assert(rest[i] == entries[i]);
        lemma_entries_map_update(rest, i, e);
        assert(entries[i].0@ != entries.last().0@);
        assert(entries_map(upd) =~= entries_map(entries).insert(e.0@, e.1@));
    }
}

impl View for WorkspaceReprs {
    type V = Map<Seq<char>, Seq<char>>;

    closed spec fn view(&self) -> Map<Seq<char>, Seq<char>> {
        entries_map(self.entries@)
    }
}

impl WorkspaceReprs {
    #[verifier::type_invariant]
    spec fn names_distinct(self) -> bool {
        distinct_names(self.entries@)
    }

    /// An empty map.
    pub fn new() -> (r: Self)
        ensures
            r@ == Map::<Seq<char>, Seq<char>>::empty(),
    {
        WorkspaceReprs { entries: Vec::new() }
    }

    fn position(&self, name: &String) -> (r: Option<usize>)
        ensures
            match r {
                Some(i) => i < self.entries@.len() && self.entries@[i as int].0@ == name@,
                None => forall|i: int|
                    0 <= i < self.entries@.len() ==> #[trigger] self.entries@[i].0@ != name@,
            },
    {
        let mut i: usize = 0;
        while i < self.entries.len()
            invariant
                i <= self.entries@.len(),
                forall|j: int| 0 <= j < i ==> #[trigger] self.entries@[j].0@ != name@,
            decreases self.entries@.len() - i,
        {
            if self.entries[i].0 == *name {
                return Some(i);
            }
            i += 1;
        }
        None
    }

    /// Sets the representation of workspace `name`, replacing any earlier one.
    pub fn insert(&mut self, name: String, repr: String)
        ensures
            final(self)@ == old(self)@.insert(name@, repr@),
    {
        proof {
            use_type_invariant(&*self);
        }
        let pos = self.position(&name);
        let mut entries: Vec<(String, String)> = Vec::new();
        std::mem::swap(&mut entries, &mut self.entries);
        let ghost before = entries@;
        match pos {
            Some(i) => {
                proof {
                    lemma_entries_map_update(before, i as int, (name, repr));
                }
                entries.set(i, (name, repr));
                assert(distinct_names(entries@)) by {
                    assert forall|a: int, b: int|
                        0 <= a < b < entries@.len() implies #[trigger] entries@[a].0@
                        != #[trigger] entries@[b].0@ by {
                        assert(a != i ==> entries@[a] == before[a]);
                        assert(b != i ==> entries@[b] == before[b]);
                    }
                }
            },
            None => {
                entries.push((name, repr));
                assert(entries@.drop_last() =~= before);
                assert(distinct_names(entries@)) by {
                    assert forall|a: int, b: int|
                        0 <= a < b < entries@.len() implies #[trigger] entries@[a].0@
                        != #[trigger] entries@[b].0@ by {
                        assert(entries@[a] == before[a]);
                        if b < before.len() {
                            assert(entries@[b] == before[b]);
                        }
                    }
                }
            },
        }
        self.entries = entries;
    }

    /// Sets the representation of workspace `name` unless it already has one.
    pub fn insert_if_absent(&mut self, name: String, repr: String)
        ensures
            final(self)@ == if old(self)@.contains_key(name@) {
                old(self)@
            } else {
                old(self)@.insert(name@, repr@)
            },
    {
        proof {
            use_type_invariant(&*self);
        }
        match self.position(&name) {
            Some(i) => {
                proof {
                    lemma_entries_map_has(self.entries@, i as int);
                }
            },
            None => {
                proof {
                    lemma_entries_map_lacks(self.entries@, name@);
                }
                self.insert(name, repr);
            },
        }
    }

    /// The representation of workspace `name`, if it has one.
    pub fn get(&self, name: &str) -> (r: Option<String>)
        ensures
            match r {
                Some(v) => self@.contains_key(name@) && self@[name@] == v@,
                None => !self@.contains_key(name@),
            },
    {
        proof {
            use_type_invariant(self);
        }
        let key = name.to_owned();
        match self.position(&key) {
            Some(i) => {
                proof {
                    lemma_entries_map_has(self.entries@, i as int);
                }
                Some(self.entries[i].1.clone())
            },
            None => {
                proof {
                    lemma_entries_map_lacks(self.entries@, name@);
                }
                None
            },
        }
    }
}


/// The icon of a visible workspace.
pub open spec fn visible_icon() -> Seq<char> {
    "\u{f111} "@
}

/// The icon of a workspace that has no windows.
pub open spec fn empty_workspace_icon() -> Seq<char> {
    "\u{eabc}"@
}

/// The icon of a window of application `app`: known applications by their name in
/// any case, Steam games by `steam_app` in their name, anything else a generic window.
pub open spec fn app_icon(app: Seq<char>) -> Seq<char> {
    if lowercases_to(app, "spotify"@) {
        "\u{f1bc} "@
    } else if lowercases_to(app, "alacritty"@) {
        "\u{ebca} "@
    } else if lowercases_to(app, "brave-browser"@) {
        "\u{f26b} "@
    } else if lowercases_to(app, "firefox"@) {
        "\u{f26b} "@
    } else if lowercases_to(app, "libreoffice-calc"@) {
        "\u{f09f7} "@
    } else if lowercases_to(app, "steam"@) {
        "\u{f1b6} "@
    } else if lowercases_to(app, "wasistlos"@) {
        "\u{f232} "@
    } else if contains(app, "steam_app"@) {
        "\u{f0297} "@
    } else if lowercases_to(app, "teams"@) {
        "\u{f02bb} "@
    } else {
        "\u{f15fc} "@
    }
}

/// The application names in a workspace representation such as `H[firefox Alacritty]`:
/// the layout markers `V[`, `H[` and `]` removed, the rest split at every space.
pub open spec fn app_names(repr: Seq<char>) -> Seq<Seq<char>> {
    split_on(remove_all(remove_all(remove_all(repr, "V["@), "H["@), "]"@), ' ')
}

/// The icons of the applications, in order.
pub open spec fn app_icons(apps: Seq<Seq<char>>) -> Seq<Seq<char>> {
    apps.map_values(|a: Seq<char>| app_icon(a))
}

/// How a workspace is shown: a fixed icon when it is visible, else the icons of
/// its applications between angle brackets.
pub open spec fn workspace_icon(repr: Seq<char>, visible: bool) -> Seq<char> {
    if visible {
        visible_icon()
    } else {
        "\u{276c}\u{2009}\u{2009}"@ + join(app_icons(app_names(repr)), " "@) + "\u{276d}"@
    }
}

fn app_icon_of(app: &Vec<char>) -> (r: &'static str)
    ensures
        r@ == app_icon(app@),
{
    if lowercases_to_chars(app, &chars_of("spotify")) {
        "\u{f1bc} "
    } else if lowercases_to_chars(app, &chars_of("alacritty")) {
        "\u{ebca} "
    } else if lowercases_to_chars(app, &chars_of("brave-browser")) {
        "\u{f26b} "
    } else if lowercases_to_chars(app, &chars_of("firefox")) {
        "\u{f26b} "
    } else if lowercases_to_chars(app, &chars_of("libreoffice-calc")) {
        "\u{f09f7} "
    } else if lowercases_to_chars(app, &chars_of("steam")) {
        "\u{f1b6} "
    } else if lowercases_to_chars(app, &chars_of("wasistlos")) {
        "\u{f232} "
    } else if contains_chars(app, &chars_of("steam_app")) {
        "\u{f0297} "
    } else if lowercases_to_chars(app, &chars_of("teams")) {
        "\u{f02bb} "
    } else {
        "\u{f15fc} "
    }
}

/// Shows a workspace by its representation and whether it is visible.
pub fn format_as_icon(repr: &str, visible: bool) -> (r: String)
    ensures
        r@ == workspace_icon(repr@, visible),
{
    if visible {
        return "\u{f111} ".to_owned();
    }
    let v = chars_of(repr);
    let a = remove_matches(&v, &chars_of("V["));
    let b = remove_matches(&a, &chars_of("H["));
    let c = remove_matches(&b, &chars_of("]"));
    let apps = split_chars(&c, ' ');
    let ghost names = app_names(repr@);
    let mut icons: Vec<Vec<char>> = Vec::new();
    let mut i: usize = 0;
    while i < apps.len()
        invariant
            views(apps@) == names,
            i <= apps.len(),
            views(icons@) == app_icons(names).take(i as int),
        decreases apps.len() - i,
    {
        assert(apps@[i as int]@ == names[i as int]);
        let icon = chars_of(app_icon_of(&apps[i]));
        let ghost before = icons@;
        icons.push(icon);
        assert(views(icons@) =~= views(before).push(icon@));
        i += 1;
        assert(app_icons(names).take(i as int) =~= app_icons(names).take(i - 1).push(icon@));
    }
    assert(app_icons(names).take(apps.len() as int) =~= app_icons(names));
    let joined = join_chars(&icons, &chars_of(" "));
    let mut out = "\u{276c}\u{2009}\u{2009}".to_owned();
    out.append(string_of(&joined).as_str());
    out.append("\u{276d}");
    out
}


/// An open workspace as plain values: its name, whether it is visible, and its
/// representation.
pub open spec fn workspace_view(w: (String, bool, String)) -> (Seq<char>, bool, Seq<char>) {
    (w.0@, w.1, w.2@)
}

/// The open workspaces as plain values.
pub open spec fn workspace_views(ws: Seq<(String, bool, String)>) -> Seq<
    (Seq<char>, bool, Seq<char>),
> {
    ws.map_values(|w: (String, bool, String)| workspace_view(w))
}

/// A line `<name> <visible> <representation>` of the workspace listing: the first
/// word is the name, the second says whether the workspace is visible (`true`), and
/// the words after it, joined again by spaces, are the representation. A line
/// without a space is no workspace.
pub open spec fn parse_workspace_line(line: Seq<char>) -> Option<(Seq<char>, bool, Seq<char>)> {
    let parts = split_on(line, ' ');
    if parts.len() < 2 {
        None
    } else {
        Some((parts[0], parts[1] == "true"@, join(parts.skip(2), " "@)))
    }
}

/// The workspaces that the lines give, empty lines skipped; none at all if a line
/// is no workspace.
pub open spec fn parse_workspace_lines(lines: Seq<Seq<char>>) -> Option<
    Seq<(Seq<char>, bool, Seq<char>)>,
>
    decreases lines.len(),
{
    if lines.len() == 0 {
        Some(seq![])
    } else {
        let prev = parse_workspace_lines(lines.drop_last());
        if lines.last().len() == 0 {
            prev
        } else {
            match (prev, parse_workspace_line(lines.last())) {
                (Some(p), Some(w)) => Some(p.push(w)),
                _ => None,
            }
        }
    }
}

/// The workspaces of the listing that `jq` printed, one per line.
pub open spec fn open_workspaces_in(listing: Seq<char>) -> Option<Seq<(Seq<char>, bool, Seq<char>)>> {
    parse_workspace_lines(split_on(listing, '\n'))
}

/// A workspace line names the workspace by its first word, says by its second
/// whether it is visible, and holds the representation in all that follows the
/// second space, spaces included.
pub proof fn lemma_workspace_line_fields(name: Seq<char>, visible: Seq<char>, repr: Seq<char>)
    requires
        !name.contains(' '),
        !visible.contains(' '),
    ensures
        parse_workspace_line(name + seq![' '] + visible + seq![' '] + repr) == Some(
            (name, visible == "true"@, repr),
        ),
{
    let tail = visible + seq![' '] + repr;
    let line = name + seq![' '] + visible + seq![' '] + repr;
    assert(line =~= name + seq![' '] + tail);
    lemma_split_on_concat(name, tail, ' ');
    lemma_split_on_concat(visible, repr, ' ');
    lemma_split_on_absent(name, ' ');
    lemma_split_on_absent(visible, ' ');
    let parts = split_on(line, ' ');
    assert(parts =~= seq![name, visible] + split_on(repr, ' '));
    assert(parts.skip(2) =~= split_on(repr, ' '));
    reveal_strlit(" ");
    assert(" "@ =~= seq![' ']);
    lemma_join_split(repr, ' ');
}

/// The non-empty lines among `lines`, in order.
pub open spec fn filled_lines(lines: Seq<Seq<char>>) -> Seq<Seq<char>> {
    lines.filter(|l: Seq<char>| l.len() > 0)
}

proof fn lemma_parse_lines_filled(lines: Seq<Seq<char>>)
    ensures
        parse_workspace_lines(lines) matches Some(ws) ==> {
            &&& ws.len() == filled_lines(lines).len()
            &&& forall|k: int|
                0 <= k < ws.len() ==> Some(#[trigger] ws[k]) == parse_workspace_line(
                    filled_lines(lines)[k],
                )
        },
        (forall|k: int|
            0 <= k < filled_lines(lines).len() ==> (#[trigger] parse_workspace_line(
                filled_lines(lines)[k],
            )) is Some) ==> parse_workspace_lines(lines) is Some,
    decreases lines.len(),
{
    reveal_with_fuel(Seq::<_>::filter, 1);
    if lines.len() > 0 {
        let rest = lines.drop_last();
        lemma_parse_lines_filled(rest);
        let fr = filled_lines(rest);
        let f = filled_lines(lines);
        if lines.last().len() > 0 {
            assert(f == fr.push(lines.last()));
            assert forall|k: int| 0 <= k < fr.len() implies f[k] == fr[k] by {}
            if forall|k: int|
                0 <= k < f.len() ==> (#[trigger] parse_workspace_line(f[k])) is Some {
                assert forall|k: int|
                    0 <= k < fr.len() implies (#[trigger] parse_workspace_line(fr[k])) is Some by {
                    assert(f[k] == fr[k]);
                }
                assert(parse_workspace_line(f[f.len() - 1]) is Some);
            }
        } else {
            assert(f == fr);
        }
    } else {
        assert(filled_lines(lines) =~= Seq::<Seq<char>>::empty());
    }
}

/// Every non-empty line of the listing is read, in order and however many there
/// are: the listing gives as many workspaces as it has non-empty lines, the `k`-th
/// being read from the `k`-th such line, and it gives them whenever each of those
/// lines reads as a workspace.
pub proof fn lemma_listing_reads_every_line(listing: Seq<char>)
    ensures
        open_workspaces_in(listing) matches Some(ws) ==> {
            &&& ws.len() == filled_lines(split_on(listing, '\n')).len()
            &&& forall|k: int|
                0 <= k < ws.len() ==> Some(#[trigger] ws[k]) == parse_workspace_line(
                    filled_lines(split_on(listing, '\n'))[k],
                )
        },
        (forall|k: int|
            0 <= k < filled_lines(split_on(listing, '\n')).len() ==> (
            #[trigger] parse_workspace_line(filled_lines(split_on(listing, '\n'))[k])) is Some)
            ==> open_workspaces_in(listing) is Some,
{
    lemma_parse_lines_filled(split_on(listing, '\n'));
}

proof fn lemma_parse_lines_fails_on(lines: Seq<Seq<char>>, k: int)
    requires
        0 <= k <= lines.len(),
        parse_workspace_lines(lines.take(k)) is None,
    ensures
        parse_workspace_lines(lines) is None,
    decreases lines.len(),
{
    if lines.len() == k {
        assert(lines.take(k) =~= lines);
    } else {
        assert(lines.drop_last().take(k) =~= lines.take(k));
        lemma_parse_lines_fails_on(lines.drop_last(), k);
    }
}

fn parse_line(line: &Vec<char>) -> (r: Option<(String, bool, String)>)
    ensures
        match r {
            Some(w) => parse_workspace_line(line@) == Some(workspace_view(w)),
            None => parse_workspace_line(line@) is None,
        },
{
    let parts = split_chars(line, ' ');
    let ghost pv = split_on(line@, ' ');
    if parts.len() < 2 {
        return None;
    }
    let name = string_of(&parts[0]);
    let visible = same_chars(&parts[1], &chars_of("true"));
    let mut rest: Vec<Vec<char>> = Vec::new();
    let mut k: usize = 2;
    while k < parts.len()
        invariant
            views(parts@) == pv,
            2 <= k <= parts.len(),
            views(rest@) == pv.subrange(2, k as int),
        decreases parts.len() - k,
    {
        let piece = copy_range(&parts[k], 0, parts[k].len());
        assert(piece@ == pv[k as int]);
        let ghost before = rest@;
        rest.push(piece);
        assert(views(rest@) =~= views(before).push(piece@));
        k += 1;
        assert(pv.subrange(2, k as int) =~= pv.subrange(2, k - 1).push(piece@));
    }
    assert(pv.subrange(2, parts.len() as int) =~= pv.skip(2));
    let repr = string_of(&join_chars(&rest, &chars_of(" ")));
    assert(name@ == pv[0]);
    Some((name, visible, repr))
}

/// Reads the workspace listing; `None` if a non-empty line has no space.
pub fn parse_open_workspaces(listing: &str) -> (r: Option<Vec<(String, bool, String)>>)
    ensures
        match r {
            Some(ws) => open_workspaces_in(listing@) == Some(workspace_views(ws@)),
            None => open_workspaces_in(listing@) is None,
        },
{
    let text = chars_of(listing);
    let ls = split_chars(&text, '\n');
    let ghost all = split_on(listing@, '\n');
    let mut out: Vec<(String, bool, String)> = Vec::new();
    let mut k: usize = 0;
    assert(all.take(0) =~= Seq::<Seq<char>>::empty());
    assert(workspace_views(out@) =~= Seq::<(Seq<char>, bool, Seq<char>)>::empty());
    while k < ls.len()
        invariant
            views(ls@) == all,
            all == split_on(listing@, '\n'),
            k <= ls.len(),
            parse_workspace_lines(all.take(k as int)) == Some(workspace_views(out@)),
        decreases ls.len() - k,
    {
        let line = &ls[k];
        assert(line@ == all[k as int]);
        let ghost prefix = all.take(k + 1);
        assert(prefix.drop_last() =~= all.take(k as int));
        if line.len() > 0 {
            match parse_line(line) {
                Some(w) => {
                    let ghost before = out@;
                    out.push(w);
                    assert(workspace_views(out@) =~= workspace_views(before).push(workspace_view(w)));
                },
                None => {
                    proof {
                        lemma_parse_lines_fails_on(all, k + 1);
                    }
                    return None;
                },
            }
        }
        k += 1;
    }
    assert(all.take(ls.len() as int) =~= all);
    Some(out)
}


/// Workspace numbers that are always shown, open or not: 1 to 4, 11 to 14 and 20 to 24.
pub open spec fn padded_workspace(n: int) -> bool {
    1 <= n <= 4 || 11 <= n <= 14 || 20 <= n <= 24
}

/// The names of the workspaces that are always shown.
pub open spec fn padded_names() -> Set<Seq<char>> {
    Set::new(|name: Seq<char>| exists|n: int| padded_workspace(n) && name == decimal(n))
}

/// Each open workspace's name mapped to how it is shown, a later workspace of the
/// same name winning.
pub open spec fn open_reprs(ws: Seq<(Seq<char>, bool, Seq<char>)>) -> Map<Seq<char>, Seq<char>>
    decreases ws.len(),
{
    if ws.len() == 0 {
        Map::empty()
    } else {
        open_reprs(ws.drop_last()).insert(ws.last().0, workspace_icon(ws.last().2, ws.last().1))
    }
}

/// How every workspace is shown: the open ones by their icons, the other always
/// shown ones by the empty-workspace icon.
pub open spec fn workspace_reprs(ws: Seq<(Seq<char>, bool, Seq<char>)>) -> Map<Seq<char>, Seq<char>> {
    let open = open_reprs(ws);
    Map::new(
        |name: Seq<char>| open.contains_key(name) || padded_names().contains(name),
        |name: Seq<char>|
            if open.contains_key(name) {
                open[name]
            } else {
                empty_workspace_icon()
            },
    )
}

/// How the open workspaces, and the always shown ones that are not open, are shown.
pub fn build_workspace_reprs(open_workspaces: Vec<(String, bool, String)>) -> (r: WorkspaceReprs)
    ensures
        r@ == workspace_reprs(workspace_views(open_workspaces@)),
{
    let ghost ws = workspace_views(open_workspaces@);
    let mut data = WorkspaceReprs::new();
    let mut k: usize = 0;
    while k < open_workspaces.len()
        invariant
            ws == workspace_views(open_workspaces@),
            k <= open_workspaces.len(),
            data@ == open_reprs(ws.take(k as int)),
        decreases open_workspaces.len() - k,
    {
        let w = &open_workspaces[k];
        assert(workspace_view(*w) == ws[k as int]);
        let icon = format_as_icon(w.2.as_str(), w.1);
        data.insert(w.0.clone(), icon);
        k += 1;
        assert(ws.take(k as int).drop_last() =~= ws.take(k - 1));
    }
    assert(ws.take(open_workspaces.len() as int) =~= ws);
    let ghost open = open_reprs(ws);
    let mut n: i64 = 1;
    while n <= 24
        invariant
            1 <= n <= 25,
            open == open_reprs(ws),
            forall|name: Seq<char>|
                #[trigger] data@.contains_key(name) <==> (open.contains_key(name) || exists|m: int|
                    1 <= m < n && padded_workspace(m) && name == decimal(m)),
            forall|name: Seq<char>|
                open.contains_key(name) ==> #[trigger] data@[name] == open[name],
            forall|name: Seq<char>|
                data@.contains_key(name) && !open.contains_key(name) ==> #[trigger] data@[name]
                    == empty_workspace_icon(),
        decreases 25 - n,
    {
        if (1 <= n && n <= 4) || (11 <= n && n <= 14) || (20 <= n && n <= 24) {
            let name = string_of(&decimal_chars(n));
            data.insert_if_absent(name, "\u{eabc}".to_owned());
        }
        n += 1;
    }
    assert(data@ =~= workspace_reprs(ws)) by {
        assert forall|name: Seq<char>| #[trigger]
            data@.contains_key(name) <==> workspace_reprs(ws).contains_key(name) by {
            if padded_names().contains(name) {
                let m = choose|m: int| padded_workspace(m) && name == decimal(m);
                assert(1 <= m < 25);
            }
        }
    }
    data
}

/// The workspaces that a screen shows, in order; `None` for an unknown screen.
pub open spec fn screen_workspaces(screen: Seq<char>) -> Option<Seq<Seq<char>>> {
    if screen == "HDMI-A-1"@ {
        Some(seq!["1"@, "2"@, "3"@, "4"@])
    } else if screen == "DP-1"@ {
        Some(seq!["11"@, "12"@, "13"@, "14"@])
    } else if screen == "DP-3"@ {
        Some(seq!["21"@, "22"@, "23"@, "24"@])
    } else {
        None
    }
}

/// The workspace names of a screen as plain values.
pub open spec fn str_views(v: Seq<&str>) -> Seq<Seq<char>> {
    v.map_values(|s: &str| s@)
}

/// The workspaces that screen `screen_name` shows; `None` for an unknown screen.
pub fn get_corresponding_workspaces(screen_name: &str) -> (r: Option<Vec<&'static str>>)
    ensures
        match r {
            Some(ids) => screen_workspaces(screen_name@) == Some(str_views(ids@)),
            None => screen_workspaces(screen_name@) is None,
        },
{
    let screen = chars_of(screen_name);
    let ids: Vec<&'static str> = if same_chars(&screen, &chars_of("HDMI-A-1")) {
        vec!["1", "2", "3", "4"]
    } else if same_chars(&screen, &chars_of("DP-1")) {
        vec!["11", "12", "13", "14"]
    } else if same_chars(&screen, &chars_of("DP-3")) {
        vec!["21", "22", "23", "24"]
    } else {
        return None;
    };
    assert(screen_workspaces(screen_name@) == Some(str_views(ids@))) by {
        assert(str_views(ids@) =~= screen_workspaces(screen_name@)->0);
    }
    Some(ids)
}


proof fn lemma_padded_name(n: int, name: &str)
    requires
        padded_workspace(n),
        name@ == decimal(n),
    ensures
        padded_names().contains(name@),
{
}

/// Every workspace that a known screen shows is always shown, so it has a
/// representation whichever workspaces are open.
pub proof fn lemma_screen_workspaces_have_reprs(
    screen: Seq<char>,
    ws: Seq<(Seq<char>, bool, Seq<char>)>,
)
    ensures
        screen_workspaces(screen) matches Some(ids) ==> forall|i: int|
            0 <= i < ids.len() ==> #[trigger] workspace_reprs(ws).contains_key(ids[i]),
{
    reveal_strlit("1");
    reveal_strlit("2");
    reveal_strlit("3");
    reveal_strlit("4");
    reveal_strlit("11");
    reveal_strlit("12");
    reveal_strlit("13");
    reveal_strlit("14");
    reveal_strlit("21");
    reveal_strlit("22");
    reveal_strlit("23");
    reveal_strlit("24");
    assert(crate::number::decimal_nat(1) =~= seq!['1']);
    assert(crate::number::decimal_nat(2) =~= seq!['2']);
    assert(crate::number::decimal_nat(3) =~= seq!['3']);
    assert(crate::number::decimal_nat(4) =~= seq!['4']);
    assert("1"@ =~= seq!['1']);
    lemma_padded_name(1, "1");
    assert("2"@ =~= seq!['2']);
    lemma_padded_name(2, "2");
    assert("3"@ =~= seq!['3']);
    lemma_padded_name(3, "3");
    assert("4"@ =~= seq!['4']);
    lemma_padded_name(4, "4");
    assert(crate::number::decimal_nat(11) =~= seq!['1', '1']);
    assert(crate::number::decimal_nat(12) =~= seq!['1', '2']);
    assert(crate::number::decimal_nat(13) =~= seq!['1', '3']);
    assert(crate::number::decimal_nat(14) =~= seq!['1', '4']);
    assert("11"@ =~= seq!['1', '1']);
    lemma_padded_name(11, "11");
    assert("12"@ =~= seq!['1', '2']);
    lemma_padded_name(12, "12");
    assert("13"@ =~= seq!['1', '3']);
    lemma_padded_name(13, "13");
    assert("14"@ =~= seq!['1', '4']);
    lemma_padded_name(14, "14");
    assert(crate::number::decimal_nat(21) =~= seq!['2', '1']);
    assert(crate::number::decimal_nat(22) =~= seq!['2', '2']);
    assert(crate::number::decimal_nat(23) =~= seq!['2', '3']);
    assert(crate::number::decimal_nat(24) =~= seq!['2', '4']);
    assert("21"@ =~= seq!['2', '1']);
    lemma_padded_name(21, "21");
    assert("22"@ =~= seq!['2', '2']);
    lemma_padded_name(22, "22");
    assert("23"@ =~= seq!['2', '3']);
    lemma_padded_name(23, "23");
    assert("24"@ =~= seq!['2', '4']);
    lemma_padded_name(24, "24");
}

/// The shown workspaces' representations, in order.
pub open spec fn reprs_of(ids: Seq<Seq<char>>, reprs: Map<Seq<char>, Seq<char>>) -> Seq<Seq<char>> {
    ids.map_values(|id: Seq<char>| reprs[id])
}

/// The workspace widget's line for a screen: the representations of its
/// workspaces separated by spaces; `None` for an unknown screen.
pub open spec fn screen_line(screen: Seq<char>, ws: Seq<(Seq<char>, bool, Seq<char>)>) -> Option<
    Seq<char>,
> {
    match screen_workspaces(screen) {
        Some(ids) => Some(waybar_line(join(reprs_of(ids, workspace_reprs(ws)), " "@))),
        None => None,
    }
}

/// The widget's line for screen `screen_name` with the given open workspaces.
pub fn build_json_repr(screen_name: &str, open_workspaces: Vec<(String, bool, String)>) -> (r:
    Option<String>)
    ensures
        match r {
            Some(line) => screen_line(screen_name@, workspace_views(open_workspaces@)) == Some(
                line@,
            ),
            None => screen_line(screen_name@, workspace_views(open_workspaces@)) is None,
        },
{
    let ghost ws = workspace_views(open_workspaces@);
    let reprs = build_workspace_reprs(open_workspaces);
    let ids = match get_corresponding_workspaces(screen_name) {
        Some(ids) => ids,
        None => {
            return None;
        },
    };
    let ghost names = str_views(ids@);
    proof {
        lemma_screen_workspaces_have_reprs(screen_name@, ws);
    }
    let mut shown: Vec<Vec<char>> = Vec::new();
    let mut k: usize = 0;
    while k < ids.len()
        invariant
            names == str_views(ids@),
            reprs@ == workspace_reprs(ws),
            forall|i: int| 0 <= i < names.len() ==> #[trigger] reprs@.contains_key(names[i]),
            k <= ids.len(),
            views(shown@) == reprs_of(names, reprs@).take(k as int),
        decreases ids.len() - k,
    {
        assert(ids@[k as int]@ == names[k as int]);
        assert(reprs@.contains_key(names[k as int]));
        match reprs.get(ids[k]) {
            Some(repr) => {
                let piece = chars_of(repr.as_str());
                let ghost before = shown@;
                shown.push(piece);
                assert(views(shown@) =~= views(before).push(piece@));
            },
            None => {
                assert(false);
            },
        }
        k += 1;
        assert(reprs_of(names, reprs@).take(k as int) =~= reprs_of(names, reprs@).take(k - 1).push(
            reprs@[names[k - 1]],
        ));
    }
    assert(reprs_of(names, reprs@).take(ids.len() as int) =~= reprs_of(names, reprs@));
    let text = string_of(&join_chars(&shown, &chars_of(" ")));
    Some(waybar_json(text.as_str()))
}


proof fn lemma_app_icon_is_one_line(app: Seq<char>)
    ensures
        !app_icon(app).contains('\n'),
{
    let icon = app_icon(app);
    reveal_strlit("\u{f1bc} ");
    reveal_strlit("\u{ebca} ");
    reveal_strlit("\u{f26b} ");
    reveal_strlit("\u{f09f7} ");
    reveal_strlit("\u{f1b6} ");
    reveal_strlit("\u{f232} ");
    reveal_strlit("\u{f0297} ");
    reveal_strlit("\u{f02bb} ");
    reveal_strlit("\u{f15fc} ");
    assert forall|i: int| 0 <= i < icon.len() implies icon[i] != '\n' by {}
}

proof fn lemma_workspace_icon_is_one_line(repr: Seq<char>, visible: bool)
    ensures
        !workspace_icon(repr, visible).contains('\n'),
{
    if visible {
        reveal_strlit("\u{f111} ");
        assert forall|i: int| 0 <= i < visible_icon().len() implies visible_icon()[i] != '\n' by {}
    } else {
        let icons = app_icons(app_names(repr));
        assert forall|k: int| 0 <= k < icons.len() implies !(#[trigger] icons[k]).contains('\n') by {
            lemma_app_icon_is_one_line(app_names(repr)[k]);
        }
        let open = "\u{276c}\u{2009}\u{2009}"@;
        let close = "\u{276d}"@;
        let sep = " "@;
        assert(!open.contains('\n')) by {
            reveal_strlit("\u{276c}\u{2009}\u{2009}");
            assert forall|i: int| 0 <= i < open.len() implies open[i] != '\n' by {}
        }
        assert(!close.contains('\n')) by {
            reveal_strlit("\u{276d}");
            assert forall|i: int| 0 <= i < close.len() implies close[i] != '\n' by {}
        }
        assert(!sep.contains('\n')) by {
            reveal_strlit(" ");
            assert forall|i: int| 0 <= i < sep.len() implies sep[i] != '\n' by {}
        }
        lemma_join_lacks(icons, sep, '\n');
        lemma_concat_lacks(open, join(icons, sep), '\n');
        lemma_concat_lacks(open + join(icons, sep), close, '\n');
    }
}

proof fn lemma_open_reprs_one_line(ws: Seq<(Seq<char>, bool, Seq<char>)>)
    ensures
        forall|name: Seq<char>|
            #[trigger] open_reprs(ws).contains_key(name) ==> !open_reprs(ws)[name].contains('\n'),
    decreases ws.len(),
{
    if ws.len() > 0 {
        let prev = open_reprs(ws.drop_last());
        lemma_open_reprs_one_line(ws.drop_last());
        lemma_workspace_icon_is_one_line(ws.last().2, ws.last().1);
        assert forall|name: Seq<char>| #[trigger]
            open_reprs(ws).contains_key(name) implies !open_reprs(ws)[name].contains('\n') by {
            if name != ws.last().0 {
                assert(prev.contains_key(name));
                assert(open_reprs(ws)[name] == prev[name]);
            }
        }
    } else {
        assert(open_reprs(ws) =~= Map::<Seq<char>, Seq<char>>::empty());
    }
}

/// The widget writes one line per refresh: for every screen it knows and every set
/// of open workspaces, the waybar line holds no line feed.
pub proof fn lemma_workspace_line_is_one_line(screen: Seq<char>, ws: Seq<(Seq<char>, bool, Seq<char>)>)
    ensures
        screen_line(screen, ws) matches Some(line) ==> !line.contains('\n'),
{
    if let Some(ids) = screen_workspaces(screen) {
        let reprs = workspace_reprs(ws);
        lemma_screen_workspaces_have_reprs(screen, ws);
        lemma_open_reprs_one_line(ws);
        let shown = reprs_of(ids, reprs);
        assert forall|k: int| 0 <= k < shown.len() implies !(#[trigger] shown[k]).contains('\n') by {
            assert(reprs.contains_key(ids[k]));
            if !open_reprs(ws).contains_key(ids[k]) {
                reveal_strlit("\u{eabc}");
                assert forall|i: int|
                    0 <= i < empty_workspace_icon().len() implies empty_workspace_icon()[i] != '\n' by {}
            }
        }
        assert(!" "@.contains('\n')) by {
            reveal_strlit(" ");
            assert forall|i: int| 0 <= i < " "@.len() implies " "@[i] != '\n' by {}
        }
        lemma_join_lacks(shown, " "@, '\n');
        lemma_waybar_line_is_one_line(join(shown, " "@));
    }
}


proof fn lemma_known_words_lower()
    ensures
        is_lower_ascii_word_all(),
{
    reveal_strlit("spotify");
    reveal_strlit("alacritty");
    reveal_strlit("brave-browser");
    reveal_strlit("firefox");
    reveal_strlit("libreoffice-calc");
    reveal_strlit("steam");
    reveal_strlit("wasistlos");
    reveal_strlit("teams");
}

/// Every application name that has an icon of its own is a lower-case ASCII word.
pub open spec fn is_lower_ascii_word_all() -> bool {
    &&& crate::text::is_lower_ascii_word("spotify"@)
    &&& crate::text::is_lower_ascii_word("alacritty"@)
    &&& crate::text::is_lower_ascii_word("brave-browser"@)
    &&& crate::text::is_lower_ascii_word("firefox"@)
    &&& crate::text::is_lower_ascii_word("libreoffice-calc"@)
    &&& crate::text::is_lower_ascii_word("steam"@)
    &&& crate::text::is_lower_ascii_word("wasistlos"@)
    &&& crate::text::is_lower_ascii_word("teams"@)
}

/// Application names are matched whatever their letter case: two names that
/// lower-case alike, neither naming a Steam game, get the same icon.
pub proof fn lemma_app_icon_ignores_case(a: Seq<char>, b: Seq<char>)
    requires
        lowercase_alike(a, b),
        !contains(a, "steam_app"@),
        !contains(b, "steam_app"@),
    ensures
        app_icon(a) == app_icon(b),
{
    lemma_known_words_lower();
    assert(lowercases_to(a, "spotify"@) == lowercases_to(b, "spotify"@));
    assert(lowercases_to(a, "alacritty"@) == lowercases_to(b, "alacritty"@));
    assert(lowercases_to(a, "brave-browser"@) == lowercases_to(b, "brave-browser"@));
    assert(lowercases_to(a, "firefox"@) == lowercases_to(b, "firefox"@));
    assert(lowercases_to(a, "libreoffice-calc"@) == lowercases_to(b, "libreoffice-calc"@));
    assert(lowercases_to(a, "steam"@) == lowercases_to(b, "steam"@));
    assert(lowercases_to(a, "wasistlos"@) == lowercases_to(b, "wasistlos"@));
    assert(lowercases_to(a, "teams"@) == lowercases_to(b, "teams"@));
}

proof fn lemma_single_app_names(a: Seq<char>)
    requires
        !a.contains(' '),
        !a.contains('['),
        !a.contains(']'),
    ensures
        app_names(a) == seq![a],
{
    reveal_strlit("V[");
    reveal_strlit("H[");
    reveal_strlit("]");
    lemma_remove_all_absent(a, "V["@, 1);
    lemma_remove_all_absent(a, "H["@, 1);
    lemma_remove_all_absent(a, "]"@, 0);
    lemma_split_on_absent(a, ' ');
}

/// A workspace holding one window is shown alike whatever the letter case of the
/// window's application name, unless it names a Steam game.
pub proof fn lemma_workspace_icon_ignores_case(a: Seq<char>, b: Seq<char>)
    requires
        lowercase_alike(a, b),
        !a.contains(' '),
        !a.contains('['),
        !a.contains(']'),
        !b.contains(' '),
        !b.contains('['),
        !b.contains(']'),
        !contains(a, "steam_app"@),
        !contains(b, "steam_app"@),
    ensures
        workspace_icon(a, false) == workspace_icon(b, false),
{
    lemma_single_app_names(a);
    lemma_single_app_names(b);
    lemma_app_icon_ignores_case(a, b);
    assert(app_icons(app_names(a)) =~= app_icons(app_names(b)));
}


/// A window name: no spaces and no brackets.
pub open spec fn plain_name(a: Seq<char>) -> bool {
    !a.contains(' ') && !a.contains('[') && !a.contains(']')
}

proof fn lemma_plain_concat(x: Seq<char>, y: Seq<char>, c: char)
    requires
        !x.contains(c),
        !y.contains(c),
    ensures
        !(x + y).contains(c),
{
    crate::text::lemma_concat_lacks(x, y, c);
}

/// The markers `V[`, `H[` and `]` are removed wherever they stand, nested ones
/// included: a horizontal split holding window `a` next to a vertical split of `b`
/// and `c` shows the windows `a`, `b` and `c`, just as the flat list `a b c` does.
pub proof fn lemma_nested_layout_shows_every_window(a: Seq<char>, b: Seq<char>, c: Seq<char>)
    requires
        plain_name(a),
        plain_name(b),
        plain_name(c),
    ensures
        app_names(seq!['H', '['] + a + seq![' ', 'V', '['] + b + seq![' '] + c + seq![']', ']'])
            == seq![a, b, c],
        app_names(a + seq![' '] + b + seq![' '] + c) == seq![a, b, c],
        workspace_icon(
            seq!['H', '['] + a + seq![' ', 'V', '['] + b + seq![' '] + c + seq![']', ']'],
            false,
        ) == workspace_icon(a + seq![' '] + b + seq![' '] + c, false),
{
    reveal_strlit("V[");
    reveal_strlit("H[");
    reveal_strlit("]");
    let vb = "V["@;
    let hb = "H["@;
    let cb = "]"@;
    assert(vb =~= seq!['V', '[']);
    assert(hb =~= seq!['H', '[']);
    assert(cb =~= seq![']']);
    let sp = seq![' '];
    let cc = seq![']', ']'];
    // The flat list of names, and the names joined by spaces.
    let flat = a + sp + b + sp + c;
    let nested = hb + a + seq![' ', 'V', '['] + b + sp + c + cc;
    assert(!sp.contains('[') && !sp.contains(']')) by {
        assert(sp[0] == ' ');
    }
    lemma_plain_concat(a, sp, '[');
    lemma_plain_concat(a + sp, b, '[');
    lemma_plain_concat(a + sp + b, sp, '[');
    lemma_plain_concat(a + sp + b + sp, c, '[');
    lemma_plain_concat(a, sp, ']');
    lemma_plain_concat(a + sp, b, ']');
    lemma_plain_concat(a + sp + b, sp, ']');
    lemma_plain_concat(a + sp + b + sp, c, ']');
    assert(!flat.contains('['));
    assert(!flat.contains(']'));
    // The flat list loses nothing to the removals.
    lemma_remove_all_absent(flat, vb, 1);
    lemma_remove_all_absent(flat, hb, 1);
    lemma_remove_all_absent(flat, cb, 0);
    // Removing `V[` from the nested form: nothing starts a `V[` before it.
    let x = hb + a + sp;
    let r = b + sp + c + cc;
    assert(nested =~= x + (vb + r));
    assert forall|i: int| 0 <= i < x.len() implies !occurs_at(x + (vb + r), vb, i) by {
        let whole = x + (vb + r);
        if occurs_at(whole, vb, i) {
            assert(whole.subrange(i, i + 2)[0] == whole[i]);
            assert(whole.subrange(i, i + 2)[1] == whole[i + 1]);
            assert(whole[i] == 'V');
            assert(whole[i + 1] == '[');
            if i == 0 {
                assert(whole[0] == 'H');
            } else if i + 1 < x.len() {
                assert(whole[i + 1] == a[i - 1]);
            } else {
                assert(whole[i] == ' ');
            }
        }
    }
    lemma_remove_all_prefix_kept(x, vb + r, vb);
    lemma_remove_all_leading(vb, r);
    assert(!cc.contains('[')) by {
        assert(cc[0] == ']' && cc[1] == ']');
    }
    lemma_plain_concat(b, sp, '[');
    lemma_plain_concat(b + sp, c, '[');
    lemma_plain_concat(b + sp + c, cc, '[');
    lemma_remove_all_absent(r, vb, 1);
    let r1 = x + r;
    assert(remove_all(nested, vb) == r1);
    // Removing `H[`: it stands only at the front.
    let t = a + sp + r;
    assert(r1 =~= hb + t);
    lemma_plain_concat(a, sp, '[');
    lemma_plain_concat(a + sp, r, '[');
    lemma_remove_all_leading(hb, t);
    lemma_remove_all_absent(t, hb, 1);
    assert(remove_all(r1, hb) == t);
    // Removing `]`: only the two closing brackets go.
    assert(t =~= flat + cc);
    lemma_remove_all_char_concat(flat, cc, cb);
    assert(remove_all(cc, cb) =~= Seq::<char>::empty()) by {
        let e = Seq::<char>::empty();
        let one = seq![']'];
        assert(remove_all(e, cb) == e);
        assert(one.take(1) =~= cb);
        assert(one.skip(1) =~= e);
        assert(remove_all(one, cb) == e);
        assert(cc.take(1) =~= cb);
        assert(cc.skip(1) =~= one);
    }
    assert(remove_all(t, cb) =~= flat);
    // Splitting the names at the spaces.
    lemma_split_on_absent(a, ' ');
    lemma_split_on_absent(b, ' ');
    lemma_split_on_absent(c, ' ');
    lemma_split_on_concat(b, c, ' ');
    lemma_split_on_concat(a, b + sp + c, ' ');
    assert(flat =~= a + sp + (b + sp + c));
    assert(split_on(flat, ' ') =~= seq![a, b, c]);
}

} // verus!
