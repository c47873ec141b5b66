//! The lookup logic of a keybinding reference for a modal editor: mode and
//! category names as typed by a user, and case-insensitive search over
//! keybindings and typeable commands.
use vstd::prelude::*;
use vstd::utf8::encode_utf8;
use crate::search::{contains_bytes, slice_contains};
use crate::text::{lowercase_chars, to_lowercase};
use crate::counting::{lemma_passing_contains, passing};

verus! {

/// An editor mode a keybinding belongs to.
#[derive(Debug, Clone, Copy, PartialEq, Eq, Structural)]
pub enum Mode {
    Normal,
    Insert,
    Select,
    View,
    Goto,
    Match,
    Window,
    Space,
    Picker,
    Prompt,
    Unimpaired,
}

/// What a keybinding is about.
#[derive(Debug, Clone, Copy, PartialEq, Eq, Structural)]
pub enum Category {
    Movement,
    Changes,
    Selection,
    Search,
    Shell,
    MinorModes,
    Lsp,
    TreeSitter,
    Clipboard,
    Navigation,
    Editing,
    Window,
    Buffer,
    Other,
}

/// A key, what it does, the command it runs, and where it belongs.
pub struct Keybinding {
    pub key: String,
    pub description: String,
    pub command: String,
    pub mode: Mode,
    pub category: Category,
}

/// A typeable command with its description and aliases.
pub struct Command {
    pub name: String,
    pub description: String,
    pub aliases: Vec<String>,
}

/// The mode a (lowercased) name selects; `g`, `m` and `ctrl-w` are short
/// names of the goto, match and window modes.
pub open spec fn mode_named(name: Seq<char>) -> Option<Mode> {
    if name == "normal"@ {
        Some(Mode::Normal)
    } else if name == "insert"@ {
        Some(Mode::Insert)
    } else if name == "select"@ {
        Some(Mode::Select)
    } else if name == "view"@ {
        Some(Mode::View)
    } else if name == "goto"@ || name == "g"@ {
        Some(Mode::Goto)
    } else if name == "match"@ || name == "m"@ {
        Some(Mode::Match)
    } else if name == "window"@ || name == "ctrl-w"@ {
        Some(Mode::Window)
    } else if name == "space"@ {
        Some(Mode::Space)
    } else if name == "picker"@ {
        Some(Mode::Picker)
    } else if name == "prompt"@ {
        Some(Mode::Prompt)
    } else if name == "unimpaired"@ {
        Some(Mode::Unimpaired)
    } else {
        None
    }
}

/// The category a (lowercased) name selects, full names and short forms.
pub open spec fn category_named(name: Seq<char>) -> Option<Category> {
    if name == "movement"@ || name == "move"@ {
        Some(Category::Movement)
    } else if name == "changes"@ || name == "change"@ {
        Some(Category::Changes)
    } else if name == "selection"@ || name == "select"@ {
        Some(Category::Selection)
    } else if name == "search"@ {
        Some(Category::Search)
    } else if name == "shell"@ {
        Some(Category::Shell)
    } else if name == "minormodes"@ || name == "minor"@ {
        Some(Category::MinorModes)
    } else if name == "lsp"@ {
        Some(Category::Lsp)
    } else if name == "treesitter"@ || name == "ts"@ {
        Some(Category::TreeSitter)
    } else if name == "clipboard"@ || name == "clip"@ {
        Some(Category::Clipboard)
    } else if name == "navigation"@ || name == "nav"@ {
        Some(Category::Navigation)
    } else if name == "editing"@ || name == "edit"@ {
        Some(Category::Editing)
    } else if name == "window"@ || name == "win"@ {
        Some(Category::Window)
    } else if name == "buffer"@ || name == "buf"@ {
        Some(Category::Buffer)
    } else if name == "other"@ {
        Some(Category::Other)
    } else {
        None
    }
}

fn is(s: &String, lit: &str) -> (r: bool)
    ensures
        r == (s@ == lit@),
{
    *s == String::from_str(lit)
}

/// The mode a user's mode name selects, case ignored.
pub fn parse_mode(name: &str) -> (m: Option<Mode>)
    ensures
        m == mode_named(lowercase_chars(name@)),
{
    let n = to_lowercase(name);
    if is(&n, "normal") {
        Some(Mode::Normal)
    } else if is(&n, "insert") {
        Some(Mode::Insert)
    } else if is(&n, "select") {
        Some(Mode::Select)
    } else if is(&n, "view") {
        Some(Mode::View)
    } else if is(&n, "goto") || is(&n, "g") {
        Some(Mode::Goto)
    } else if is(&n, "match") || is(&n, "m") {
        Some(Mode::Match)
    } else if is(&n, "window") || is(&n, "ctrl-w") {
        Some(Mode::Window)
    } else if is(&n, "space") {
        Some(Mode::Space)
    } else if is(&n, "picker") {
        Some(Mode::Picker)
    } else if is(&n, "prompt") {
        Some(Mode::Prompt)
    } else if is(&n, "unimpaired") {
        Some(Mode::Unimpaired)
    } else {
        None
    }
}

/// The category a user's category name selects, case ignored.
pub fn parse_category(name: &str) -> (c: Option<Category>)
    ensures
        c == category_named(lowercase_chars(name@)),
{
    let n = to_lowercase(name);
    if is(&n, "movement") || is(&n, "move") {
        Some(Category::Movement)
    } else if is(&n, "changes") || is(&n, "change") {
        Some(Category::Changes)
    } else if is(&n, "selection") || is(&n, "select") {
        Some(Category::Selection)
    } else if is(&n, "search") {
        Some(Category::Search)
    } else if is(&n, "shell") {
        Some(Category::Shell)
    } else if is(&n, "minormodes") || is(&n, "minor") {
        Some(Category::MinorModes)
    } else if is(&n, "lsp") {
        Some(Category::Lsp)
    } else if is(&n, "treesitter") || is(&n, "ts") {
        Some(Category::TreeSitter)
    } else if is(&n, "clipboard") || is(&n, "clip") {
        Some(Category::Clipboard)
    } else if is(&n, "navigation") || is(&n, "nav") {
        Some(Category::Navigation)
    } else if is(&n, "editing") || is(&n, "edit") {
        Some(Category::Editing)
    } else if is(&n, "window") || is(&n, "win") {
        Some(Category::Window)
    } else if is(&n, "buffer") || is(&n, "buf") {
        Some(Category::Buffer)
    } else if is(&n, "other") {
        Some(Category::Other)
    } else {
        None
    }
}

/// `query` (already lowercased) occurs in `text` once `text` is lowercased.
pub open spec fn mentions(text: Seq<char>, query: Seq<char>) -> bool {
    contains_bytes(encode_utf8(lowercase_chars(text)), encode_utf8(query))
}

/// Whether the lowercased `text` contains the lowercased query.
fn text_mentions(text: &String, query_lower: &str) -> (r: bool)
    ensures
        r == mentions(text@, query_lower@),
{
    let lowered = to_lowercase(text.as_str());
    let hay = lowered.as_str().as_bytes();
    let r = slice_contains(hay, 0, hay.len(), query_lower.as_bytes());
    assert(hay@.subrange(0, hay@.len() as int) =~= hay@);
    r
}

/// A keybinding matches a query when its key, description or command
/// contains the query, case ignored.
pub open spec fn keybinding_matches(k: Keybinding, query_lower: Seq<char>) -> bool {
    mentions(k.key@, query_lower) || mentions(k.description@, query_lower) || mentions(
        k.command@,
        query_lower,
    )
}

/// A command matches a query when its name, description or one of its
/// aliases contains the query, case ignored.
pub open spec fn command_matches(c: Command, query_lower: Seq<char>) -> bool {
    mentions(c.name@, query_lower) || mentions(c.description@, query_lower) || exists|a: int|
        0 <= a < c.aliases@.len() && mentions(#[trigger] c.aliases@[a]@, query_lower)
}

/// Keybinding `i` of `ks` matches the query.
pub open spec fn keybinding_hit(ks: Seq<Keybinding>, query_lower: Seq<char>) -> spec_fn(int) -> bool {
    |i: int| keybinding_matches(ks[i], query_lower)
}

/// Command `i` of `cs` matches the query.
pub open spec fn command_hit(cs: Seq<Command>, query_lower: Seq<char>) -> spec_fn(int) -> bool {
    |i: int| command_matches(cs[i], query_lower)
}

/// Keybinding `i` of `ks` belongs to mode `m`.
pub open spec fn in_mode(ks: Seq<Keybinding>, m: Mode) -> spec_fn(int) -> bool {
    |i: int| ks[i].mode == m
}

/// Keybinding `i` of `ks` is in category `c`.
pub open spec fn in_category(ks: Seq<Keybinding>, c: Category) -> spec_fn(int) -> bool {
    |i: int| ks[i].category == c
}

/// The keybindings that match a query, case ignored, as ascending indices.
pub fn search_keybindings(ks: &Vec<Keybinding>, query: &str) -> (r: Vec<usize>)
    ensures
        r@ == passing(keybinding_hit(ks@, lowercase_chars(query@)), ks.len() as int),
{
    let q = to_lowercase(query);
    let ghost p = keybinding_hit(ks@, lowercase_chars(query@));
    let mut r: Vec<usize> = Vec::new();
    let mut i: usize = 0;
    while i < ks.len()
        invariant
            i <= ks.len(),
            q@ == lowercase_chars(query@),
            p == keybinding_hit(ks@, lowercase_chars(query@)),
            r@ == passing(p, i as int),
        decreases ks.len() - i,
    {
        let k = &ks[i];
        let hit = text_mentions(&k.key, q.as_str()) || text_mentions(&k.description, q.as_str())
            || text_mentions(&k.command, q.as_str());
        assert(hit == p(i as int));
        if hit {
            r.push(i);
        }
        i += 1;
    }
    r
}

/// The commands that match a query, case ignored, as ascending indices.
pub fn search_commands(cs: &Vec<Command>, query: &str) -> (r: Vec<usize>)
    ensures
        r@ == passing(command_hit(cs@, lowercase_chars(query@)), cs.len() as int),
{
    let q = to_lowercase(query);
    let ghost p = command_hit(cs@, lowercase_chars(query@));
    let mut r: Vec<usize> = Vec::new();
    let mut i: usize = 0;
    while i < cs.len()
        invariant
            i <= cs.len(),
            q@ == lowercase_chars(query@),
            p == command_hit(cs@, lowercase_chars(query@)),
            r@ == passing(p, i as int),
        decreases cs.len() - i,
    {
        let c = &cs[i];
        let mut hit = text_mentions(&c.name, q.as_str()) || text_mentions(&c.description, q.as_str());
        let mut a: usize = 0;
        while a < c.aliases.len()
            invariant
                a <= c.aliases.len(),
                q@ == lowercase_chars(query@),
                hit == (mentions(c.name@, q@) || mentions(c.description@, q@) || exists|x: int|
                    0 <= x < a && mentions(#[trigger] c.aliases@[x]@, q@)),
            decreases c.aliases.len() - a,
        {
            if text_mentions(&c.aliases[a], q.as_str()) {
                hit = true;
            }
            a += 1;
        }
        assert(hit == p(i as int));
        if hit {
            r.push(i);
        }
        i += 1;
    }
    r
}

/// The keybindings of a mode, as ascending indices.
pub fn keybindings_in_mode(ks: &Vec<Keybinding>, m: Mode) -> (r: Vec<usize>)
    ensures
        r@ == passing(in_mode(ks@, m), ks.len() as int),
{
    let ghost p = in_mode(ks@, m);
    let mut r: Vec<usize> = Vec::new();
    let mut i: usize = 0;
    while i < ks.len()
        invariant
            i <= ks.len(),
            p == in_mode(ks@, m),
            r@ == passing(p, i as int),
        decreases ks.len() - i,
    {
        if ks[i].mode == m {
            r.push(i);
        }
        i += 1;
    }
    r
}

/// The keybindings of a category, as ascending indices.
pub fn keybindings_in_category(ks: &Vec<Keybinding>, c: Category) -> (r: Vec<usize>)
    ensures
        r@ == passing(in_category(ks@, c), ks.len() as int),
{
    let ghost p = in_category(ks@, c);
    let mut r: Vec<usize> = Vec::new();
    let mut i: usize = 0;
    while i < ks.len()
        invariant
            i <= ks.len(),
            p == in_category(ks@, c),
            r@ == passing(p, i as int),
        decreases ks.len() - i,
    {
        if ks[i].category == c {
            r.push(i);
        }
        i += 1;
    }
    r
}

/// Searches ignore case: two queries with the same lowercase form find the
/// same keybindings and the same commands.
pub proof fn lemma_search_ignores_case(ks: Seq<Keybinding>, cs: Seq<Command>, q1: Seq<char>, q2: Seq<char>)
    requires
        lowercase_chars(q1) == lowercase_chars(q2),
    ensures
        passing(keybinding_hit(ks, lowercase_chars(q1)), ks.len() as int) == passing(
            keybinding_hit(ks, lowercase_chars(q2)),
            ks.len() as int,
        ),
        passing(command_hit(cs, lowercase_chars(q1)), cs.len() as int) == passing(
            command_hit(cs, lowercase_chars(q2)),
            cs.len() as int,
        ),
{
}

/// The name under which each mode is listed to the user.
pub open spec fn mode_label(m: Mode) -> Seq<char> {
    match m {
        Mode::Normal => "normal"@,
        Mode::Insert => "insert"@,
        Mode::Select => "select"@,
        Mode::View => "view"@,
        Mode::Goto => "goto"@,
        Mode::Match => "match"@,
        Mode::Window => "window"@,
        Mode::Space => "space"@,
        Mode::Picker => "picker"@,
        Mode::Prompt => "prompt"@,
        Mode::Unimpaired => "unimpaired"@,
    }
}

/// The short name a mode is also known by: its key (`g`, `m`, `ctrl-w`).
pub open spec fn mode_short_name(m: Mode) -> Option<Seq<char>> {
    match m {
        Mode::Goto => Some("g"@),
        Mode::Match => Some("m"@),
        Mode::Window => Some("ctrl-w"@),
        _ => None,
    }
}

/// Each mode's listed name, and its short name, select that mode, and no
/// other name selects it.
pub proof fn lemma_mode_names(m: Mode, name: Seq<char>)
    ensures
        mode_named(mode_label(m)) == Some(m),
        mode_short_name(m) matches Some(short) ==> mode_named(short) == Some(m),
        mode_named(name) == Some(m) ==> name == mode_label(m) || mode_short_name(m) == Some(name),
{
    reveal_strlit("normal");
    assert("normal"@ =~= seq!['n', 'o', 'r', 'm', 'a', 'l']);
    reveal_strlit("insert");
    assert("insert"@ =~= seq!['i', 'n', 's', 'e', 'r', 't']);
    reveal_strlit("select");
    assert("select"@ =~= seq!['s', 'e', 'l', 'e', 'c', 't']);
    reveal_strlit("view");
    assert("view"@ =~= seq!['v', 'i', 'e', 'w']);
    reveal_strlit("goto");
    assert("goto"@ =~= seq!['g', 'o', 't', 'o']);
    reveal_strlit("g");
    assert("g"@ =~= seq!['g']);
    reveal_strlit("match");
    assert("match"@ =~= seq!['m', 'a', 't', 'c', 'h']);
    reveal_strlit("m");
    assert("m"@ =~= seq!['m']);
    reveal_strlit("window");
    assert("window"@ =~= seq!['w', 'i', 'n', 'd', 'o', 'w']);
    reveal_strlit("ctrl-w");
    assert("ctrl-w"@ =~= seq!['c', 't', 'r', 'l', '-', 'w']);
    reveal_strlit("space");
    assert("space"@ =~= seq!['s', 'p', 'a', 'c', 'e']);
    reveal_strlit("picker");
    assert("picker"@ =~= seq!['p', 'i', 'c', 'k', 'e', 'r']);
    reveal_strlit("prompt");
    assert("prompt"@ =~= seq!['p', 'r', 'o', 'm', 'p', 't']);
    reveal_strlit("unimpaired");
    assert("unimpaired"@ =~= seq!['u', 'n', 'i', 'm', 'p', 'a', 'i', 'r', 'e', 'd']);
    assert(mode_named("g"@) == Some(Mode::Goto));
    assert("m"@ != "normal"@ && "m"@ != "insert"@ && "m"@ != "select"@ && "m"@ != "view"@);
    assert("m"@[0] != "g"@[0] && "m"@[0] != "goto"@[0]);
    assert(mode_named("m"@) == Some(Mode::Match));
    assert(mode_named("ctrl-w"@) == Some(Mode::Window));
}

/// The name under which each category is known in full.
pub open spec fn category_label(c: Category) -> Seq<char> {
    match c {
        Category::Movement => "movement"@,
        Category::Changes => "changes"@,
        Category::Selection => "selection"@,
        Category::Search => "search"@,
        Category::Shell => "shell"@,
        Category::MinorModes => "minormodes"@,
        Category::Lsp => "lsp"@,
        Category::TreeSitter => "treesitter"@,
        Category::Clipboard => "clipboard"@,
        Category::Navigation => "navigation"@,
        Category::Editing => "editing"@,
        Category::Window => "window"@,
        Category::Buffer => "buffer"@,
        Category::Other => "other"@,
    }
}

/// The short form a category is also known by.
pub open spec fn category_short_name(c: Category) -> Option<Seq<char>> {
    match c {
        Category::Movement => Some("move"@),
        Category::Changes => Some("change"@),
        Category::Selection => Some("select"@),
        Category::MinorModes => Some("minor"@),
        Category::TreeSitter => Some("ts"@),
        Category::Clipboard => Some("clip"@),
        Category::Navigation => Some("nav"@),
        Category::Editing => Some("edit"@),
        Category::Window => Some("win"@),
        Category::Buffer => Some("buf"@),
        _ => None,
    }
}

/// Each category's full name, and its short form, select that category,
/// and no other name selects it.
pub proof fn lemma_category_names(c: Category, name: Seq<char>)
    ensures
        category_named(category_label(c)) == Some(c),
        category_short_name(c) matches Some(short) ==> category_named(short) == Some(c),
        category_named(name) == Some(c) ==> name == category_label(c) || category_short_name(c)
            == Some(name),
{
    reveal_strlit("movement");
    assert("movement"@ =~= seq!['m', 'o', 'v', 'e', 'm', 'e', 'n', 't']);
    reveal_strlit("move");
    assert("move"@ =~= seq!['m', 'o', 'v', 'e']);
    reveal_strlit("changes");
    assert("changes"@ =~= seq!['c', 'h', 'a', 'n', 'g', 'e', 's']);
    reveal_strlit("change");
    assert("change"@ =~= seq!['c', 'h', 'a', 'n', 'g', 'e']);
    reveal_strlit("selection");
    assert("selection"@ =~= seq!['s', 'e', 'l', 'e', 'c', 't', 'i', 'o', 'n']);
    reveal_strlit("select");
    assert("select"@ =~= seq!['s', 'e', 'l', 'e', 'c', 't']);
    reveal_strlit("search");
    assert("search"@ =~= seq!['s', 'e', 'a', 'r', 'c', 'h']);
    reveal_strlit("shell");
    assert("shell"@ =~= seq!['s', 'h', 'e', 'l', 'l']);
    reveal_strlit("minormodes");
    assert("minormodes"@ =~= seq!['m', 'i', 'n', 'o', 'r', 'm', 'o', 'd', 'e', 's']);
    reveal_strlit("minor");
    assert("minor"@ =~= seq!['m', 'i', 'n', 'o', 'r']);
    reveal_strlit("lsp");
    assert("lsp"@ =~= seq!['l', 's', 'p']);
    reveal_strlit("treesitter");
    assert("treesitter"@ =~= seq!['t', 'r', 'e', 'e', 's', 'i', 't', 't', 'e', 'r']);
    reveal_strlit("ts");
    assert("ts"@ =~= seq!['t', 's']);
    reveal_strlit("clipboard");
    assert("clipboard"@ =~= seq!['c', 'l', 'i', 'p', 'b', 'o', 'a', 'r', 'd']);
    reveal_strlit("clip");
    assert("clip"@ =~= seq!['c', 'l', 'i', 'p']);
    reveal_strlit("navigation");
    assert("navigation"@ =~= seq!['n', 'a', 'v', 'i', 'g', 'a', 't', 'i', 'o', 'n']);
    reveal_strlit("nav");
    assert("nav"@ =~= seq!['n', 'a', 'v']);
    reveal_strlit("editing");
    assert("editing"@ =~= seq!['e', 'd', 'i', 't', 'i', 'n', 'g']);
    reveal_strlit("edit");
    assert("edit"@ =~= seq!['e', 'd', 'i', 't']);
    reveal_strlit("window");
    assert("window"@ =~= seq!['w', 'i', 'n', 'd', 'o', 'w']);
    reveal_strlit("win");
    assert("win"@ =~= seq!['w', 'i', 'n']);
    reveal_strlit("buffer");
    assert("buffer"@ =~= seq!['b', 'u', 'f', 'f', 'e', 'r']);
    reveal_strlit("buf");
    assert("buf"@ =~= seq!['b', 'u', 'f']);
    reveal_strlit("other");
    assert("other"@ =~= seq!['o', 't', 'h', 'e', 'r']);
}

/// A keybinding search finds a keybinding exactly when its key, its
/// description or its command contains the query, case ignored.
pub proof fn lemma_keybinding_found(ks: Seq<Keybinding>, query: Seq<char>, i: int)
    requires
        0 <= i < ks.len(),
        ks.len() <= usize::MAX,
    ensures
        passing(keybinding_hit(ks, lowercase_chars(query)), ks.len() as int).contains(i as usize)
            <==> (mentions(ks[i].key@, lowercase_chars(query)) || mentions(
            ks[i].description@,
            lowercase_chars(query),
        ) || mentions(ks[i].command@, lowercase_chars(query))),
{
    lemma_passing_contains(keybinding_hit(ks, lowercase_chars(query)), ks.len() as int, i);
}

/// A command search finds a command exactly when its name, its
/// description or one of its aliases contains the query, case ignored.
pub proof fn lemma_command_found(cs: Seq<Command>, query: Seq<char>, i: int)
    requires
        0 <= i < cs.len(),
        cs.len() <= usize::MAX,
    ensures
        passing(command_hit(cs, lowercase_chars(query)), cs.len() as int).contains(i as usize)
            <==> (mentions(cs[i].name@, lowercase_chars(query)) || mentions(
            cs[i].description@,
            lowercase_chars(query),
        ) || exists|a: int|
            0 <= a < cs[i].aliases@.len() && mentions(
                #[trigger] cs[i].aliases@[a]@,
                lowercase_chars(query),
            )),
{
    lemma_passing_contains(command_hit(cs, lowercase_chars(query)), cs.len() as int, i);
}

/// Listing a mode gives exactly the keybindings of that mode, and listing a
/// category exactly the keybindings in that category.
pub proof fn lemma_listed_by_mode_and_category(ks: Seq<Keybinding>, m: Mode, c: Category, i: int)
    requires
        0 <= i < ks.len(),
        ks.len() <= usize::MAX,
    ensures
        passing(in_mode(ks, m), ks.len() as int).contains(i as usize) <==> ks[i].mode == m,
        passing(in_category(ks, c), ks.len() as int).contains(i as usize) <==> ks[i].category == c,
{
    lemma_passing_contains(in_mode(ks, m), ks.len() as int, i);
    lemma_passing_contains(in_category(ks, c), ks.len() as int, i);
}

} // verus!
