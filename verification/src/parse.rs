//! Reading the item, spell and name tables out of the game's settings
//! files: translation tables, `<ThingDef>` and `<Spell>` blocks, and name
//! lists.
use vstd::prelude::*;
use crate::npc::{strs, GameData};
use crate::textops::string_of;
use crate::textops::{
    chars_of, contains, contains_exec, ends_with, ends_with_exec, find, find_exec, lemma_find_from_bounds,
    lines, lines_exec, nonblank_trimmed, nonblank_trimmed_exec, slice_chars, split, split_eol,
    split_eol_exec, split_exec, split_once, split_once_exec, trim, trim_exec, views, eq_chars,
    find_from, matches_at,
};

verus! {

broadcast use vstd::string::group_string_axioms;

/// A settings file that was found and read: its path, its extension and its
/// text.
pub struct SourceFile {
    pub path: String,
    pub extension: String,
    pub content: String,
}

/// `char::to_ascii_lowercase`.
pub open spec fn ascii_lower(c: char) -> char {
    if 'A' <= c && c <= 'Z' {
        ((c as u32) + 32) as char
    } else {
        c
    }
}

/// `str::eq_ignore_ascii_case`.
pub open spec fn eq_ignore_ascii_case(a: Seq<char>, b: Seq<char>) -> bool {
    a.len() == b.len() && forall|i: int| 0 <= i < a.len() ==> ascii_lower(a[i]) == ascii_lower(b[i])
}

/// Whether two strings are equal but for the case of ASCII letters.
pub fn eq_ignore_ascii_case_exec(a: &str, b: &str) -> (r: bool)
    ensures
        r == eq_ignore_ascii_case(a@, b@),
{
    let x = chars_of(a);
    let y = chars_of(b);
    if x.len() != y.len() {
        return false;
    }
    let mut i: usize = 0;
    while i < x.len()
        invariant
            i <= x.len(),
            x.len() == y.len(),
            x@ == a@,
            y@ == b@,
            forall|k: int| 0 <= k < i ==> ascii_lower(x@[k]) == ascii_lower(y@[k]),
        decreases x.len() - i,
    {
        let c = x[i];
        let d = y[i];
        let lc: u32 = if 'A' <= c && c <= 'Z' { c as u32 + 32 } else { c as u32 };
        let ld: u32 = if 'A' <= d && d <= 'Z' { d as u32 + 32 } else { d as u32 };
        if lc != ld {
            assert(ascii_lower(x@[i as int]) as u32 == lc);
            assert(ascii_lower(y@[i as int]) as u32 == ld);
            return false;
        }
        assert(ascii_lower(x@[i as int]) as u32 == ascii_lower(y@[i as int]) as u32);
        i = i + 1;
    }
    true
}

/// One entry of a translation table: a text and what it translates to.
pub type Entry = (Seq<char>, Seq<char>);

/// Consecutive lines taken two by two; an odd last line is dropped.
pub open spec fn pairs_of_two(ls: Seq<Seq<char>>) -> Seq<Entry>
    decreases ls.len(),
{
    if ls.len() < 2 {
        Seq::empty()
    } else {
        seq![(ls[0], ls[1])] + pairs_of_two(ls.subrange(2, ls.len() as int))
    }
}

/// The entry of one line of an XML translation table:
/// `... Name="key" ...>value</Text>`, both sides trimmed.
pub open spec fn xml_entry(line: Seq<char>) -> Option<Entry> {
    match find(line, "Name=\""@) {
        Some(start) => {
            let from = start + "Name=\""@.len();
            match find(line.subrange(from as int, line.len() as int), "\""@) {
                Some(end) => match (find(line, ">"@), find(line, "</Text>"@)) {
                    (Some(vs), Some(ve)) => if vs < ve {
                        Some(
                            (
                                trim(line.subrange(from as int, (from + end) as int)),
                                trim(line.subrange((vs + 1) as int, ve as int)),
                            ),
                        )
                    } else {
                        None
                    },
                    _ => None,
                },
                None => None,
            }
        },
        None => None,
    }
}

/// The entries of the lines of an XML translation table, in order.
pub open spec fn xml_entries(ls: Seq<Seq<char>>) -> Seq<Entry>
    decreases ls.len(),
{
    if ls.len() == 0 {
        Seq::empty()
    } else {
        let prev = xml_entries(ls.drop_last());
        match xml_entry(ls.last()) {
            Some(e) => prev.push(e),
            None => prev,
        }
    }
}

/// The translation entries of one file: a file under a `Language` directory
/// holds them as pairs of nonblank lines (`.txt`) or as XML lines (`.xml`).
pub open spec fn file_entries(path: Seq<char>, ext: Seq<char>, content: Seq<char>) -> Seq<Entry> {
    if !contains(path, "Language"@) {
        Seq::empty()
    } else if eq_ignore_ascii_case(ext, "txt"@) {
        pairs_of_two(nonblank_trimmed(lines(content)))
    } else if eq_ignore_ascii_case(ext, "xml"@) {
        xml_entries(lines(content))
    } else {
        Seq::empty()
    }
}

/// The translation entries of all files, in order.
pub open spec fn all_entries(files: Seq<SourceFile>) -> Seq<Entry>
    decreases files.len(),
{
    if files.len() == 0 {
        Seq::empty()
    } else {
        let f = files.last();
        all_entries(files.drop_last()) + file_entries(f.path@, f.extension@, f.content@)
    }
}

/// The value of the last entry for `key`.
pub open spec fn lookup_last(es: Seq<Entry>, key: Seq<char>) -> Option<Seq<char>>
    decreases es.len(),
{
    if es.len() == 0 {
        None
    } else if es.last().0 == key {
        Some(es.last().1)
    } else {
        lookup_last(es.drop_last(), key)
    }
}

/// The translation of `s`: the last entry for it, or `s` itself.
pub open spec fn translate(es: Seq<Entry>, s: Seq<char>) -> Seq<char> {
    match lookup_last(es, s) {
        Some(v) => v,
        None => s,
    }
}

/// The trimmed text between the first `open` and the first `close` after it.
pub open spec fn tag_text(b: Seq<char>, open: Seq<char>, close: Seq<char>) -> Option<Seq<char>> {
    match split_once(b, open) {
        Some((_, after)) => match split_once(after, close) {
            Some((inner, _)) => Some(trim(inner)),
            None => None,
        },
        None => None,
    }
}

/// The value of the first `Name="..."` attribute that is not a
/// `ParentName="..."` one; `None` when there is none, or when its closing
/// quote is missing.
pub open spec fn name_attr(r: Seq<char>) -> Option<Seq<char>>
    decreases r.len(),
{
    match split_once(r, "Name=\""@) {
        Some((left, right)) => {
            if !ends_with(left, "Parent"@) {
                match split_once(right, "\""@) {
                    Some((v, _)) => Some(v),
                    None => None,
                }
            } else {
                proof {
                    reveal_strlit("Name=\"");
                    lemma_find_from_bounds(r, "Name=\""@, 0);
                }
                name_attr(right)
            }
        },
        None => None,
    }
}

/// The name of a definition: its `<defName>`, else its `Name` attribute,
/// else empty.
pub open spec fn def_name(b: Seq<char>) -> Seq<char> {
    match tag_text(b, "<defName>"@, "</defName>"@) {
        Some(n) => n,
        None => match name_attr(b) {
            Some(n) => n,
            None => Seq::empty(),
        },
    }
}

/// Of each part that holds `start`, what follows its first occurrence.
pub open spec fn blocks_after(parts: Seq<Seq<char>>, start: Seq<char>) -> Seq<Seq<char>>
    decreases parts.len(),
{
    if parts.len() == 0 {
        Seq::empty()
    } else {
        let prev = blocks_after(parts.drop_last(), start);
        match split_once(parts.last(), start) {
            Some((_, b)) => prev.push(b),
            None => prev,
        }
    }
}

/// The bodies of the `<ThingDef ...>` definitions of a file.
pub open spec fn thing_blocks(content: Seq<char>) -> Seq<Seq<char>> {
    blocks_after(split(content, "</ThingDef>"@), "<ThingDef"@)
}

/// The bodies of the `<Spell ...>` definitions of a file.
pub open spec fn spell_blocks(content: Seq<char>) -> Seq<Seq<char>> {
    blocks_after(split(content, "</Spell>"@), "<Spell "@)
}

/// The `Lable="..."` attribute of a definition, trimmed, or empty.
pub open spec fn kind_label(b: Seq<char>) -> Seq<char> {
    match split_once(b, "Lable=\""@) {
        Some((_, right)) => match split_once(right, "\""@) {
            Some((v, _)) => trim(v),
            None => Seq::empty(),
        },
        None => Seq::empty(),
    }
}

/// The kind of an item: its label, or "Tool" for an unlabelled item whose
/// parent is a tool.
pub open spec fn item_kind(b: Seq<char>) -> Seq<char> {
    let et = kind_label(b);
    if et.len() == 0 && (contains(b, "Parent=\"ToolBase\""@) || contains(b, "Parent=\"Item_Tool\""@)) {
        "Tool"@
    } else {
        et
    }
}

/// Whether a kind is one of the materials.
pub open spec fn is_material_kind(et: Seq<char>) -> bool {
    ||| et == "Material"@
    ||| et == "LeftoverMaterial"@
    ||| et == "Rock"@
    ||| et == "WoodBlock"@
    ||| et == "MetalBlock"@
    ||| et == "Bone"@
    ||| et == "BambooBlock"@
    ||| et == "Stuff"@
    ||| et == "Wood"@
    ||| et == "Meat"@
}

/// What the tables keep of an item: its shown name, its kind, and whether
/// it is a material.
pub type ItemInfo = (Seq<char>, Seq<char>, bool);

/// The item that a `<ThingDef>` body defines, under its name; `None` for a
/// body without a name, for a base definition, and for an item whose shown
/// name is empty.
pub open spec fn item_entry(es: Seq<Entry>, b: Seq<char>) -> Option<(Seq<char>, ItemInfo)> {
    let n = def_name(b);
    let raw = tag_text(b, "<ThingName>"@, "</ThingName>"@);
    if n.len() == 0 {
        None
    } else if ends_with(n, "Base"@) || (raw is None && contains(b, "Parent=\"ItemBase\""@)) {
        None
    } else {
        let tn = translate(
            es,
            match raw {
                Some(t) => t,
                None => n,
            },
        );
        let et = item_kind(b);
        if tn.len() == 0 {
            None
        } else {
            Some(
                (
                    n,
                    (
                        tn,
                        et,
                        is_material_kind(et) || contains(b, "<StuffTexPath"@) || contains(
                            b,
                            "<StuffCategories>"@,
                        ),
                    ),
                ),
            )
        }
    }
}

/// The spell that a `<Spell>` body defines, under its name, with its shown
/// name: the translated display name, else thing name, else the name.
pub open spec fn spell_entry(es: Seq<Entry>, b: Seq<char>) -> Option<(Seq<char>, Seq<char>)> {
    let n = def_name(b);
    if n.len() == 0 {
        None
    } else {
        let raw = match tag_text(b, "<DisplayName>"@, "</DisplayName>"@) {
            Some(t) => t,
            None => match tag_text(b, "<ThingName>"@, "</ThingName>"@) {
                Some(t) => t,
                None => n,
            },
        };
        Some((n, translate(es, raw)))
    }
}

/// The first position at or after `i` of `key` in a table.
pub open spec fn key_pos_from<V>(d: Seq<(Seq<char>, V)>, key: Seq<char>, i: nat) -> Option<nat>
    decreases d.len() - i,
{
    if i >= d.len() {
        None
    } else if d[i as int].0 == key {
        Some(i)
    } else {
        key_pos_from(d, key, i + 1)
    }
}

/// The position of `key` in a table.
pub open spec fn key_pos<V>(d: Seq<(Seq<char>, V)>, key: Seq<char>) -> Option<nat> {
    key_pos_from(d, key, 0)
}

/// A table in insertion order after `key` is set to `v`: a known key keeps
/// its place, a new one goes last.
pub open spec fn table_insert<V>(d: Seq<(Seq<char>, V)>, key: Seq<char>, v: V) -> Seq<(Seq<char>, V)> {
    match key_pos(d, key) {
        Some(i) => d.update(i as int, (key, v)),
        None => d.push((key, v)),
    }
}

/// The item table after the `<ThingDef>` bodies `bs`, in order.
pub open spec fn items_after(es: Seq<Entry>, d: Seq<(Seq<char>, ItemInfo)>, bs: Seq<Seq<char>>) -> Seq<
    (Seq<char>, ItemInfo),
>
    decreases bs.len(),
{
    if bs.len() == 0 {
        d
    } else {
        let prev = items_after(es, d, bs.drop_last());
        match item_entry(es, bs.last()) {
            Some((k, v)) => table_insert(prev, k, v),
            None => prev,
        }
    }
}

/// The spell table after the `<Spell>` bodies `bs`, in order.
pub open spec fn spells_after(es: Seq<Entry>, d: Seq<(Seq<char>, Seq<char>)>, bs: Seq<Seq<char>>) -> Seq<
    (Seq<char>, Seq<char>),
>
    decreases bs.len(),
{
    if bs.len() == 0 {
        d
    } else {
        let prev = spells_after(es, d, bs.drop_last());
        match spell_entry(es, bs.last()) {
            Some((k, v)) => table_insert(prev, k, v),
            None => prev,
        }
    }
}

/// The item table of all files.
pub open spec fn item_table(es: Seq<Entry>, files: Seq<SourceFile>) -> Seq<(Seq<char>, ItemInfo)>
    decreases files.len(),
{
    if files.len() == 0 {
        Seq::empty()
    } else {
        items_after(es, item_table(es, files.drop_last()), thing_blocks(files.last().content@))
    }
}

/// The spell table of all files.
pub open spec fn spell_table(es: Seq<Entry>, files: Seq<SourceFile>) -> Seq<(Seq<char>, Seq<char>)>
    decreases files.len(),
{
    if files.len() == 0 {
        Seq::empty()
    } else {
        spells_after(es, spell_table(es, files.drop_last()), spell_blocks(files.last().content@))
    }
}

/// The lists that items are sorted into.
#[derive(Clone, Copy, Debug, PartialEq, Eq, Structural)]
pub enum ItemCategory {
    Clothes,
    Pants,
    Weapons,
    Tools,
    Stuffs,
}

/// Whether the item `key` with `info` belongs in list `c`.
pub open spec fn in_category(key: Seq<char>, info: ItemInfo, c: ItemCategory) -> bool {
    match c {
        ItemCategory::Clothes => info.1 == "Clothes"@,
        ItemCategory::Pants => info.1 == "Pants"@ || info.1 == "Trousers"@,
        ItemCategory::Weapons => info.1 == "Weapon"@ || contains(key, "Fabao"@),
        ItemCategory::Tools => info.1 == "Tool"@,
        ItemCategory::Stuffs => info.2,
    }
}

/// The shown names of the items of list `c`, in table order.
pub open spec fn category(d: Seq<(Seq<char>, ItemInfo)>, c: ItemCategory) -> Seq<Seq<char>>
    decreases d.len(),
{
    if d.len() == 0 {
        Seq::empty()
    } else {
        let prev = category(d.drop_last(), c);
        if in_category(d.last().0, d.last().1, c) {
            prev.push(d.last().1.0)
        } else {
            prev
        }
    }
}

/// The shown names of a spell table, in table order.
pub open spec fn spell_names(d: Seq<(Seq<char>, Seq<char>)>) -> Seq<Seq<char>> {
    d.map_values(|e: (Seq<char>, Seq<char>)| e.1)
}

/// The names of a name file: its nonblank lines (split at `\r` and at
/// `\n`), trimmed; nothing when the file could not be read.
pub open spec fn name_list(content: Option<Seq<char>>) -> Seq<Seq<char>> {
    match content {
        Some(c) => nonblank_trimmed(split_eol(c)),
        None => Seq::empty(),
    }
}

/// A translation entry as it is held while reading.
struct EntryRow {
    key: Vec<char>,
    val: Vec<char>,
}

spec fn entry_views(v: Seq<EntryRow>) -> Seq<Entry> {
    v.map_values(|e: EntryRow| (e.key@, e.val@))
}

spec fn entry_opt_view(o: Option<EntryRow>) -> Option<Entry> {
    match o {
        Some(e) => Some((e.key@, e.val@)),
        None => None,
    }
}

fn copy_chars(v: &Vec<char>) -> (r: Vec<char>)
    ensures
        r@ == v@,
{
    let r = slice_chars(v, 0, v.len());
    assert(r@ =~= v@);
    r
}

fn pairs_of_two_exec(ls: &Vec<Vec<char>>) -> (r: Vec<EntryRow>)
    ensures
        entry_views(r@) == pairs_of_two(views(ls@)),
{
    let mut r: Vec<EntryRow> = Vec::new();
    let mut i: usize = 0;
    assert(views(ls@).subrange(0, ls.len() as int) =~= views(ls@));
    assert(entry_views(r@) + pairs_of_two(views(ls@)) =~= pairs_of_two(views(ls@)));
    while i < ls.len() && ls.len() - i >= 2
        invariant
            i <= ls.len(),
            entry_views(r@) + pairs_of_two(views(ls@).subrange(i as int, ls.len() as int))
                == pairs_of_two(views(ls@)),
        decreases ls.len() - i,
    {
        let ghost rest = views(ls@).subrange(i as int, ls.len() as int);
        let ghost next = views(ls@).subrange(i + 2, ls.len() as int);
        let e = EntryRow { key: copy_chars(&ls[i]), val: copy_chars(&ls[i + 1]) };
        proof {
            assert(rest.subrange(2, rest.len() as int) =~= next);
            assert(rest[0] == ls@[i as int]@);
            assert(rest[1] == ls@[i + 1]@);
            assert(pairs_of_two(rest) == seq![(rest[0], rest[1])] + pairs_of_two(next));
        }
        let ghost prev = r@;
        r.push(e);
        proof {
            assert(entry_views(r@) =~= entry_views(prev).push((rest[0], rest[1])));
            assert(entry_views(r@) + pairs_of_two(next) =~= entry_views(prev) + pairs_of_two(rest));
        }
        i = i + 2;
    }
    proof {
        let rest = views(ls@).subrange(i as int, ls.len() as int);
        assert(pairs_of_two(rest) == Seq::<Entry>::empty());
        assert(entry_views(r@) + pairs_of_two(rest) =~= entry_views(r@));
    }
    r
}

fn xml_entry_exec(line: &Vec<char>) -> (r: Option<EntryRow>)
    ensures
        entry_opt_view(r) == xml_entry(line@),
{
    let name_eq = chars_of("Name=\"");
    let quote = chars_of("\"");
    let gt = chars_of(">");
    let close = chars_of("</Text>");
    proof {
        reveal_strlit("Name=\"");
        reveal_strlit("\"");
        reveal_strlit(">");
        reveal_strlit("</Text>");
    }
    match find_exec(line, &name_eq) {
        None => None,
        Some(start) => {
            proof {
                lemma_find_from_bounds(line@, name_eq@, 0);
                assert(find_from(line@, name_eq@, 0) == Some(start as nat));
            }
            assert(start + name_eq.len() <= line.len());
            let from: usize = start + name_eq.len();
            let rest = slice_chars(line, from, line.len());
            match find_exec(&rest, &quote) {
                None => None,
                Some(end) => {
                    proof {
                        lemma_find_from_bounds(rest@, quote@, 0);
                        assert(find_from(rest@, quote@, 0) == Some(end as nat));
                    }
                    match find_exec(line, &gt) {
                        None => None,
                        Some(vs) => match find_exec(line, &close) {
                            None => None,
                            Some(ve) => {
                                proof {
                                    lemma_find_from_bounds(line@, close@, 0);
                                    assert(find_from(line@, close@, 0) == Some(ve as nat));
                                }
                                if vs < ve {
                                    let key = trim_exec(&slice_chars(line, from, from + end));
                                    let val = trim_exec(&slice_chars(line, vs + 1, ve));
                                    Some(EntryRow { key, val })
                                } else {
                                    None
                                }
                            },
                        },
                    }
                },
            }
        },
    }
}

fn xml_entries_exec(ls: &Vec<Vec<char>>) -> (r: Vec<EntryRow>)
    ensures
        entry_views(r@) == xml_entries(views(ls@)),
{
    let mut r: Vec<EntryRow> = Vec::new();
    let mut i: usize = 0;
    assert(views(ls@).take(0) =~= Seq::<Seq<char>>::empty());
    assert(entry_views(r@) =~= Seq::<Entry>::empty());
    while i < ls.len()
        invariant
            i <= ls.len(),
            entry_views(r@) == xml_entries(views(ls@).take(i as int)),
        decreases ls.len() - i,
    {
        proof {
            assert(views(ls@).take(i + 1).drop_last() =~= views(ls@).take(i as int));
            assert(views(ls@).take(i + 1).last() == ls@[i as int]@);
        }
        match xml_entry_exec(&ls[i]) {
            Some(e) => {
                let ghost prev = r@;
                let ghost ev = (e.key@, e.val@);
                r.push(e);
                assert(entry_views(r@) =~= entry_views(prev).push(ev));
            },
            None => {},
        }
        i = i + 1;
    }
    assert(views(ls@).take(ls.len() as int) =~= views(ls@));
    r
}

fn file_entries_exec(f: &SourceFile) -> (r: Vec<EntryRow>)
    ensures
        entry_views(r@) == file_entries(f.path@, f.extension@, f.content@),
{
    let path = chars_of(f.path.as_str());
    let language = chars_of("Language");
    proof {
        reveal_strlit("Language");
    }
    if !contains_exec(&path, &language) {
        let r: Vec<EntryRow> = Vec::new();
        assert(entry_views(r@) =~= Seq::<Entry>::empty());
        return r;
    }
    if eq_ignore_ascii_case_exec(f.extension.as_str(), "txt") {
        let content = chars_of(f.content.as_str());
        let ls = nonblank_trimmed_exec(&lines_exec(&content));
        pairs_of_two_exec(&ls)
    } else if eq_ignore_ascii_case_exec(f.extension.as_str(), "xml") {
        let content = chars_of(f.content.as_str());
        xml_entries_exec(&lines_exec(&content))
    } else {
        let r: Vec<EntryRow> = Vec::new();
        assert(entry_views(r@) =~= Seq::<Entry>::empty());
        r
    }
}

fn all_entries_exec(files: &Vec<SourceFile>) -> (r: Vec<EntryRow>)
    ensures
        entry_views(r@) == all_entries(files@),
{
    let mut r: Vec<EntryRow> = Vec::new();
    let mut i: usize = 0;
    assert(files@.take(0) =~= Seq::<SourceFile>::empty());
    assert(entry_views(r@) =~= Seq::<Entry>::empty());
    while i < files.len()
        invariant
            i <= files.len(),
            entry_views(r@) == all_entries(files@.take(i as int)),
        decreases files.len() - i,
    {
        let mut fe = file_entries_exec(&files[i]);
        proof {
            assert(files@.take(i + 1).drop_last() =~= files@.take(i as int));
            assert(files@.take(i + 1).last() == files@[i as int]);
        }
        let ghost prev = r@;
        let ghost add = fe@;
        r.append(&mut fe);
        assert(entry_views(r@) =~= entry_views(prev) + entry_views(add));
        i = i + 1;
    }
    assert(files@.take(files.len() as int) =~= files@);
    r
}

fn translate_exec(es: &Vec<EntryRow>, s: &Vec<char>) -> (r: Vec<char>)
    ensures
        r@ == translate(entry_views(es@), s@),
{
    let mut i: usize = es.len();
    assert(entry_views(es@).take(es.len() as int) =~= entry_views(es@));
    while i > 0
        invariant
            i <= es.len(),
            lookup_last(entry_views(es@), s@) == lookup_last(entry_views(es@).take(i as int), s@),
        decreases i,
    {
        proof {
            assert(entry_views(es@).take(i as int).drop_last() =~= entry_views(es@).take(i - 1));
            assert(entry_views(es@).take(i as int).last() == (es@[i - 1].key@, es@[i - 1].val@));
        }
        if eq_chars(&es[i - 1].key, s) {
            return copy_chars(&es[i - 1].val);
        }
        i = i - 1;
    }
    copy_chars(s)
}

spec fn opt_chars(o: Option<Vec<char>>) -> Option<Seq<char>> {
    match o {
        Some(v) => Some(v@),
        None => None,
    }
}

fn tag_text_exec(b: &Vec<char>, open: &Vec<char>, close: &Vec<char>) -> (r: Option<Vec<char>>)
    requires
        open.len() > 0,
        close.len() > 0,
    ensures
        opt_chars(r) == tag_text(b@, open@, close@),
{
    match split_once_exec(b, open) {
        Some((_, after)) => match split_once_exec(&after, close) {
            Some((inner, _)) => Some(trim_exec(&inner)),
            None => None,
        },
        None => None,
    }
}

fn name_attr_exec(b: &Vec<char>) -> (r: Option<Vec<char>>)
    ensures
        opt_chars(r) == name_attr(b@),
{
    let name_eq = chars_of("Name=\"");
    let parent = chars_of("Parent");
    let quote = chars_of("\"");
    proof {
        reveal_strlit("Name=\"");
        reveal_strlit("\"");
    }
    let mut r = copy_chars(b);
    loop
        invariant
            name_eq@ == "Name=\""@,
            parent@ == "Parent"@,
            quote@ == "\""@,
            name_eq.len() > 0,
            quote.len() > 0,
            name_attr(r@) == name_attr(b@),
        decreases r.len(),
    {
        match split_once_exec(&r, &name_eq) {
            Some((left, right)) => {
                if !ends_with_exec(&left, &parent) {
                    return match split_once_exec(&right, &quote) {
                        Some((v, _)) => Some(v),
                        None => None,
                    };
                }
                proof {
                    lemma_find_from_bounds(r@, name_eq@, 0);
                }
                r = right;
            },
            None => {
                return None;
            },
        }
    }
}

fn def_name_exec(b: &Vec<char>) -> (r: Vec<char>)
    ensures
        r@ == def_name(b@),
{
    let open = chars_of("<defName>");
    let close = chars_of("</defName>");
    proof {
        reveal_strlit("<defName>");
        reveal_strlit("</defName>");
    }
    match tag_text_exec(b, &open, &close) {
        Some(n) => n,
        None => match name_attr_exec(b) {
            Some(n) => n,
            None => Vec::new(),
        },
    }
}

fn blocks_after_exec(parts: &Vec<Vec<char>>, start: &Vec<char>) -> (r: Vec<Vec<char>>)
    requires
        start.len() > 0,
    ensures
        views(r@) == blocks_after(views(parts@), start@),
{
    let mut r: Vec<Vec<char>> = Vec::new();
    let mut i: usize = 0;
    assert(views(parts@).take(0) =~= Seq::<Seq<char>>::empty());
    assert(views(r@) =~= Seq::<Seq<char>>::empty());
    while i < parts.len()
        invariant
            i <= parts.len(),
            start.len() > 0,
            views(r@) == blocks_after(views(parts@).take(i as int), start@),
        decreases parts.len() - i,
    {
        proof {
            assert(views(parts@).take(i + 1).drop_last() =~= views(parts@).take(i as int));
            assert(views(parts@).take(i + 1).last() == parts@[i as int]@);
        }
        match split_once_exec(&parts[i], start) {
            Some((_, b)) => {
                let ghost prev = r@;
                let ghost bv = b@;
                r.push(b);
                assert(views(r@) =~= views(prev).push(bv));
            },
            None => {},
        }
        i = i + 1;
    }
    assert(views(parts@).take(parts.len() as int) =~= views(parts@));
    r
}

fn blocks_exec(content: &Vec<char>, end: &str, start: &str) -> (r: Vec<Vec<char>>)
    requires
        end@.len() > 0,
        start@.len() > 0,
    ensures
        views(r@) == blocks_after(split(content@, end@), start@),
{
    let e = chars_of(end);
    let st = chars_of(start);
    let parts = split_exec(content, &e);
    assert(views(parts@) =~= parts@.map_values(|v: Vec<char>| v@));
    blocks_after_exec(&parts, &st)
}

fn kind_label_exec(b: &Vec<char>) -> (r: Vec<char>)
    ensures
        r@ == kind_label(b@),
{
    let lable = chars_of("Lable=\"");
    let quote = chars_of("\"");
    proof {
        reveal_strlit("Lable=\"");
        reveal_strlit("\"");
    }
    match split_once_exec(b, &lable) {
        Some((_, right)) => match split_once_exec(&right, &quote) {
            Some((v, _)) => trim_exec(&v),
            None => Vec::new(),
        },
        None => Vec::new(),
    }
}

fn has(b: &Vec<char>, pat: &str) -> (r: bool)
    requires
        pat@.len() > 0,
    ensures
        r == contains(b@, pat@),
{
    let p = chars_of(pat);
    contains_exec(b, &p)
}

fn is(a: &Vec<char>, lit: &str) -> (r: bool)
    ensures
        r == (a@ == lit@),
{
    let l = chars_of(lit);
    eq_chars(a, &l)
}

fn item_kind_exec(b: &Vec<char>) -> (r: Vec<char>)
    ensures
        r@ == item_kind(b@),
{
    let et = kind_label_exec(b);
    proof {
        reveal_strlit("Parent=\"ToolBase\"");
        reveal_strlit("Parent=\"Item_Tool\"");
    }
    if et.len() == 0 && (has(b, "Parent=\"ToolBase\"") || has(b, "Parent=\"Item_Tool\"")) {
        chars_of("Tool")
    } else {
        et
    }
}

fn is_material_kind_exec(et: &Vec<char>) -> (r: bool)
    ensures
        r == is_material_kind(et@),
{
    is(et, "Material") || is(et, "LeftoverMaterial") || is(et, "Rock") || is(et, "WoodBlock") || is(
        et,
        "MetalBlock",
    ) || is(et, "Bone") || is(et, "BambooBlock") || is(et, "Stuff") || is(et, "Wood") || is(
        et,
        "Meat",
    )
}

/// An item as it is held while reading.
struct ItemRow {
    key: Vec<char>,
    name: Vec<char>,
    kind: Vec<char>,
    is_stuff: bool,
}

spec fn item_view(e: ItemRow) -> (Seq<char>, ItemInfo) {
    (e.key@, (e.name@, e.kind@, e.is_stuff))
}

spec fn item_views(v: Seq<ItemRow>) -> Seq<(Seq<char>, ItemInfo)> {
    v.map_values(|e: ItemRow| item_view(e))
}

fn item_entry_exec(es: &Vec<EntryRow>, b: &Vec<char>) -> (r: Option<ItemRow>)
    ensures
        match r {
            Some(e) => item_entry(entry_views(es@), b@) == Some(item_view(e)),
            None => item_entry(entry_views(es@), b@) is None,
        },
{
    let n = def_name_exec(b);
    let open = chars_of("<ThingName>");
    let close = chars_of("</ThingName>");
    let base = chars_of("Base");
    proof {
        reveal_strlit("<ThingName>");
        reveal_strlit("</ThingName>");
        reveal_strlit("Parent=\"ItemBase\"");
        reveal_strlit("<StuffTexPath");
        reveal_strlit("<StuffCategories>");
    }
    let raw = tag_text_exec(b, &open, &close);
    if n.len() == 0 {
        return None;
    }
    if ends_with_exec(&n, &base) || (raw.is_none() && has(b, "Parent=\"ItemBase\"")) {
        return None;
    }
    let tn = match raw {
        Some(t) => translate_exec(es, &t),
        None => translate_exec(es, &n),
    };
    let et = item_kind_exec(b);
    if tn.len() == 0 {
        return None;
    }
    let is_stuff = is_material_kind_exec(&et) || has(b, "<StuffTexPath") || has(b, "<StuffCategories>");
    Some(ItemRow { key: n, name: tn, kind: et, is_stuff })
}

/// A spell as it is held while reading.
struct SpellRow {
    key: Vec<char>,
    name: Vec<char>,
}

spec fn spell_view(e: SpellRow) -> (Seq<char>, Seq<char>) {
    (e.key@, e.name@)
}

spec fn spell_views(v: Seq<SpellRow>) -> Seq<(Seq<char>, Seq<char>)> {
    v.map_values(|e: SpellRow| spell_view(e))
}

fn spell_entry_exec(es: &Vec<EntryRow>, b: &Vec<char>) -> (r: Option<SpellRow>)
    ensures
        match r {
            Some(e) => spell_entry(entry_views(es@), b@) == Some(spell_view(e)),
            None => spell_entry(entry_views(es@), b@) is None,
        },
{
    let n = def_name_exec(b);
    if n.len() == 0 {
        return None;
    }
    let dopen = chars_of("<DisplayName>");
    let dclose = chars_of("</DisplayName>");
    let topen = chars_of("<ThingName>");
    let tclose = chars_of("</ThingName>");
    proof {
        reveal_strlit("<DisplayName>");
        reveal_strlit("</DisplayName>");
        reveal_strlit("<ThingName>");
        reveal_strlit("</ThingName>");
    }
    let name = match tag_text_exec(b, &dopen, &dclose) {
        Some(t) => translate_exec(es, &t),
        None => match tag_text_exec(b, &topen, &tclose) {
            Some(t) => translate_exec(es, &t),
            None => translate_exec(es, &n),
        },
    };
    Some(SpellRow { key: n, name })
}

fn item_pos(t: &Vec<ItemRow>, key: &Vec<char>) -> (r: Option<usize>)
    ensures
        match r {
            Some(i) => i < t.len() && key_pos(item_views(t@), key@) == Some(i as nat),
            None => key_pos(item_views(t@), key@) is None,
        },
{
    let mut i: usize = 0;
    while i < t.len()
        invariant
            i <= t.len(),
            key_pos_from(item_views(t@), key@, i as nat) == key_pos(item_views(t@), key@),
        decreases t.len() - i,
    {
        assert(item_views(t@)[i as int].0 == t@[i as int].key@);
        if eq_chars(&t[i].key, key) {
            return Some(i);
        }
        i = i + 1;
    }
    None
}

fn insert_item(t: &mut Vec<ItemRow>, row: ItemRow)
    ensures
        item_views(final(t)@) == table_insert(item_views(old(t)@), row.key@, item_view(row).1),
{
    let ghost rv = item_view(row);
    match item_pos(t, &row.key) {
        Some(i) => {
            t.set(i, row);
            assert(item_views(t@) =~= item_views(old(t)@).update(i as int, rv));
        },
        None => {
            t.push(row);
            assert(item_views(t@) =~= item_views(old(t)@).push(rv));
        },
    }
}

fn add_items(es: &Vec<EntryRow>, t: &mut Vec<ItemRow>, bs: &Vec<Vec<char>>)
    ensures
        item_views(final(t)@) == items_after(entry_views(es@), item_views(old(t)@), views(bs@)),
{
    let ghost d0 = item_views(t@);
    let mut i: usize = 0;
    assert(views(bs@).take(0) =~= Seq::<Seq<char>>::empty());
    while i < bs.len()
        invariant
            i <= bs.len(),
            d0 == item_views(old(t)@),
            item_views(t@) == items_after(entry_views(es@), d0, views(bs@).take(i as int)),
        decreases bs.len() - i,
    {
        proof {
            assert(views(bs@).take(i + 1).drop_last() =~= views(bs@).take(i as int));
            assert(views(bs@).take(i + 1).last() == bs@[i as int]@);
        }
        match item_entry_exec(es, &bs[i]) {
            Some(row) => insert_item(t, row),
            None => {},
        }
        i = i + 1;
    }
    assert(views(bs@).take(bs.len() as int) =~= views(bs@));
}

fn spell_pos(t: &Vec<SpellRow>, key: &Vec<char>) -> (r: Option<usize>)
    ensures
        match r {
            Some(i) => i < t.len() && key_pos(spell_views(t@), key@) == Some(i as nat),
            None => key_pos(spell_views(t@), key@) is None,
        },
{
    let mut i: usize = 0;
    while i < t.len()
        invariant
            i <= t.len(),
            key_pos_from(spell_views(t@), key@, i as nat) == key_pos(spell_views(t@), key@),
        decreases t.len() - i,
    {
        assert(spell_views(t@)[i as int].0 == t@[i as int].key@);
        if eq_chars(&t[i].key, key) {
            return Some(i);
        }
        i = i + 1;
    }
    None
}

fn insert_spell(t: &mut Vec<SpellRow>, row: SpellRow)
    ensures
        spell_views(final(t)@) == table_insert(spell_views(old(t)@), row.key@, row.name@),
{
    let ghost rv = spell_view(row);
    match spell_pos(t, &row.key) {
        Some(i) => {
            t.set(i, row);
            assert(spell_views(t@) =~= spell_views(old(t)@).update(i as int, rv));
        },
        None => {
            t.push(row);
            assert(spell_views(t@) =~= spell_views(old(t)@).push(rv));
        },
    }
}

fn add_spells(es: &Vec<EntryRow>, t: &mut Vec<SpellRow>, bs: &Vec<Vec<char>>)
    ensures
        spell_views(final(t)@) == spells_after(entry_views(es@), spell_views(old(t)@), views(bs@)),
{
    let ghost d0 = spell_views(t@);
    let mut i: usize = 0;
    assert(views(bs@).take(0) =~= Seq::<Seq<char>>::empty());
    while i < bs.len()
        invariant
            i <= bs.len(),
            d0 == spell_views(old(t)@),
            spell_views(t@) == spells_after(entry_views(es@), d0, views(bs@).take(i as int)),
        decreases bs.len() - i,
    {
        proof {
            assert(views(bs@).take(i + 1).drop_last() =~= views(bs@).take(i as int));
            assert(views(bs@).take(i + 1).last() == bs@[i as int]@);
        }
        match spell_entry_exec(es, &bs[i]) {
            Some(row) => insert_spell(t, row),
            None => {},
        }
        i = i + 1;
    }
    assert(views(bs@).take(bs.len() as int) =~= views(bs@));
}

fn tables_exec(es: &Vec<EntryRow>, files: &Vec<SourceFile>) -> (r: (Vec<ItemRow>, Vec<SpellRow>))
    ensures
        item_views(r.0@) == item_table(entry_views(es@), files@),
        spell_views(r.1@) == spell_table(entry_views(es@), files@),
{
    let mut items: Vec<ItemRow> = Vec::new();
    let mut spells: Vec<SpellRow> = Vec::new();
    let mut i: usize = 0;
    assert(files@.take(0) =~= Seq::<SourceFile>::empty());
    assert(item_views(items@) =~= Seq::<(Seq<char>, ItemInfo)>::empty());
    assert(spell_views(spells@) =~= Seq::<(Seq<char>, Seq<char>)>::empty());
    while i < files.len()
        invariant
            i <= files.len(),
            item_views(items@) == item_table(entry_views(es@), files@.take(i as int)),
            spell_views(spells@) == spell_table(entry_views(es@), files@.take(i as int)),
        decreases files.len() - i,
    {
        proof {
            assert(files@.take(i + 1).drop_last() =~= files@.take(i as int));
            assert(files@.take(i + 1).last() == files@[i as int]);
            reveal_strlit("</ThingDef>");
            reveal_strlit("<ThingDef");
            reveal_strlit("</Spell>");
            reveal_strlit("<Spell ");
        }
        let content = chars_of(files[i].content.as_str());
        let things = blocks_exec(&content, "</ThingDef>", "<ThingDef");
        add_items(es, &mut items, &things);
        let sp = blocks_exec(&content, "</Spell>", "<Spell ");
        add_spells(es, &mut spells, &sp);
        i = i + 1;
    }
    assert(files@.take(files.len() as int) =~= files@);
    (items, spells)
}

fn in_category_exec(row: &ItemRow, c: ItemCategory) -> (r: bool)
    ensures
        r == in_category(row.key@, item_view(*row).1, c),
{
    proof {
        reveal_strlit("Fabao");
    }
    match c {
        ItemCategory::Clothes => is(&row.kind, "Clothes"),
        ItemCategory::Pants => is(&row.kind, "Pants") || is(&row.kind, "Trousers"),
        ItemCategory::Weapons => is(&row.kind, "Weapon") || has(&row.key, "Fabao"),
        ItemCategory::Tools => is(&row.kind, "Tool"),
        ItemCategory::Stuffs => row.is_stuff,
    }
}

fn category_exec(t: &Vec<ItemRow>, c: ItemCategory) -> (r: Vec<String>)
    ensures
        strs(r@) == category(item_views(t@), c),
{
    let mut r: Vec<String> = Vec::new();
    let mut i: usize = 0;
    assert(item_views(t@).take(0) =~= Seq::<(Seq<char>, ItemInfo)>::empty());
    assert(strs(r@) =~= Seq::<Seq<char>>::empty());
    while i < t.len()
        invariant
            i <= t.len(),
            strs(r@) == category(item_views(t@).take(i as int), c),
        decreases t.len() - i,
    {
        proof {
            assert(item_views(t@).take(i + 1).drop_last() =~= item_views(t@).take(i as int));
            assert(item_views(t@).take(i + 1).last() == item_view(t@[i as int]));
        }
        if in_category_exec(&t[i], c) {
            let s = string_of(&t[i].name);
            let ghost prev = r@;
            r.push(s);
            assert(strs(r@) =~= strs(prev).push(t@[i as int].name@));
        }
        i = i + 1;
    }
    assert(item_views(t@).take(t.len() as int) =~= item_views(t@));
    r
}

fn spell_names_exec(t: &Vec<SpellRow>) -> (r: Vec<String>)
    ensures
        strs(r@) == spell_names(spell_views(t@)),
{
    let mut r: Vec<String> = Vec::new();
    let mut i: usize = 0;
    while i < t.len()
        invariant
            i <= t.len(),
            r.len() == i,
            strs(r@) == spell_names(spell_views(t@)).take(i as int),
        decreases t.len() - i,
    {
        let s = string_of(&t[i].name);
        let ghost prev = r@;
        let ghost sv = s@;
        r.push(s);
        proof {
            assert(spell_views(t@)[i as int] == spell_view(t@[i as int]));
            assert(spell_names(spell_views(t@))[i as int] == sv);
            assert(strs(r@)[i as int] == sv);
        }
        assert(strs(r@) =~= spell_names(spell_views(t@)).take(i + 1));
        i = i + 1;
    }
    assert(spell_names(spell_views(t@)).take(t.len() as int) =~= spell_names(spell_views(t@)));
    r
}

/// The view of a file that may not have been read.
pub open spec fn opt_text(o: Option<String>) -> Option<Seq<char>> {
    match o {
        Some(s) => Some(s@),
        None => None,
    }
}

/// The names of a name file (see `name_list`).
pub fn name_list_exec(content: &Option<String>) -> (r: Vec<String>)
    ensures
        strs(r@) == name_list(opt_text(*content)),
{
    match content {
        Some(c) => {
            let cs = chars_of(c.as_str());
            let parts = nonblank_trimmed_exec(&split_eol_exec(&cs));
            let mut r: Vec<String> = Vec::new();
            let mut i: usize = 0;
            while i < parts.len()
                invariant
                    i <= parts.len(),
                    r.len() == i,
                    strs(r@) == views(parts@).take(i as int),
                decreases parts.len() - i,
            {
                let s = string_of(&parts[i]);
                let ghost sv = s@;
                r.push(s);
                proof {
                    assert(views(parts@)[i as int] == sv);
                    assert(strs(r@)[i as int] == sv);
                }
                assert(strs(r@) =~= views(parts@).take(i + 1));
                i = i + 1;
            }
            assert(views(parts@).take(parts.len() as int) =~= views(parts@));
            r
        },
        None => {
            let r: Vec<String> = Vec::new();
            assert(strs(r@) =~= Seq::<Seq<char>>::empty());
            r
        },
    }
}

impl GameData {
    /// The tables of the settings files `files` (found under `ThingDef`,
    /// `Practice/Spell` and `Language`, in path order) and of the three name
    /// files (`None` where a file could not be read).
    pub fn from_sources(
        files: &Vec<SourceFile>,
        prefix: &Option<String>,
        m_suffix: &Option<String>,
        f_suffix: &Option<String>,
    ) -> (d: GameData)
        ensures
            strs(d.clothes@) == category(
                item_table(all_entries(files@), files@),
                ItemCategory::Clothes,
            ),
            strs(d.pants@) == category(item_table(all_entries(files@), files@), ItemCategory::Pants),
            strs(d.weapons@) == category(
                item_table(all_entries(files@), files@),
                ItemCategory::Weapons,
            ),
            strs(d.tools@) == category(item_table(all_entries(files@), files@), ItemCategory::Tools),
            strs(d.stuffs@) == category(item_table(all_entries(files@), files@), ItemCategory::Stuffs),
            strs(d.spells@) == spell_names(spell_table(all_entries(files@), files@)),
            d.loaded == (d.clothes.len() > 0),
            strs(d.names_prefix@) == name_list(opt_text(*prefix)),
            strs(d.names_m_suffix@) == name_list(opt_text(*m_suffix)),
            strs(d.names_f_suffix@) == name_list(opt_text(*f_suffix)),
    {
        let es = all_entries_exec(files);
        let (items, spells) = tables_exec(&es, files);
        let clothes = category_exec(&items, ItemCategory::Clothes);
        let loaded = clothes.len() > 0;
        GameData {
            clothes,
            pants: category_exec(&items, ItemCategory::Pants),
            weapons: category_exec(&items, ItemCategory::Weapons),
            stuffs: category_exec(&items, ItemCategory::Stuffs),
            spells: spell_names_exec(&spells),
            tools: category_exec(&items, ItemCategory::Tools),
            names_prefix: name_list_exec(prefix),
            names_m_suffix: name_list_exec(m_suffix),
            names_f_suffix: name_list_exec(f_suffix),
            loaded,
        }
    }
}

/// A later translation of a text wins over every earlier one, and adding a
/// translation of one text leaves the translations of the others alone.
pub proof fn law_later_translation_wins(es: Seq<Entry>, key: Seq<char>, val: Seq<char>, other: Seq<char>)
    requires
        other != key,
    ensures
        translate(es.push((key, val)), key) == val,
        translate(es.push((key, val)), other) == translate(es, other),
{
    assert(es.push((key, val)).drop_last() =~= es);
}

/// Where a name is found, it is there.
proof fn lemma_key_pos_from<V>(d: Seq<(Seq<char>, V)>, key: Seq<char>, i: nat)
    ensures
        key_pos_from(d, key, i) matches Some(k) ==> i <= k < d.len() && d[k as int].0 == key,
    decreases d.len() - i,
{
    if i < d.len() && d[i as int].0 != key {
        lemma_key_pos_from(d, key, i + 1);
    }
}

/// Setting a known name replaces its value in place; a new name is added
/// last; nothing else moves.
pub proof fn law_table_insert<V>(d: Seq<(Seq<char>, V)>, key: Seq<char>, v: V)
    ensures
        key_pos(d, key) matches Some(i) ==> {
            &&& table_insert(d, key, v).len() == d.len()
            &&& table_insert(d, key, v)[i as int] == (key, v)
            &&& forall|j: int| 0 <= j < d.len() && j != i ==> #[trigger] table_insert(d, key, v)[j] == d[j]
        },
        key_pos(d, key) is None ==> table_insert(d, key, v) == d.push((key, v)),
{
    lemma_key_pos_from(d, key, 0);
}

/// An item labelled with one of the ten material kinds (`Material`,
/// `LeftoverMaterial`, `Rock`, `WoodBlock`, `MetalBlock`, `Bone`,
/// `BambooBlock`, `Stuff`, `Wood`, `Meat`) is a material: its entry belongs
/// in the stuffs list.
pub proof fn law_material_labels(es: Seq<Entry>, b: Seq<char>)
    requires
        ({
            let l = kind_label(b);
            ||| l == "Material"@
            ||| l == "LeftoverMaterial"@
            ||| l == "Rock"@
            ||| l == "WoodBlock"@
            ||| l == "MetalBlock"@
            ||| l == "Bone"@
            ||| l == "BambooBlock"@
            ||| l == "Stuff"@
            ||| l == "Wood"@
            ||| l == "Meat"@
        }),
        item_entry(es, b) is Some,
    ensures
        item_entry(es, b).unwrap().1.2,
        in_category(item_entry(es, b).unwrap().0, item_entry(es, b).unwrap().1, ItemCategory::Stuffs),
{
    reveal_strlit("Material");
    reveal_strlit("LeftoverMaterial");
    reveal_strlit("Rock");
    reveal_strlit("WoodBlock");
    reveal_strlit("MetalBlock");
    reveal_strlit("Bone");
    reveal_strlit("BambooBlock");
    reveal_strlit("Stuff");
    reveal_strlit("Wood");
    reveal_strlit("Meat");
    assert(kind_label(b).len() > 0);
    assert(item_kind(b) == kind_label(b));
}

/// An item is a material only for a material kind or a material texture
/// or category: an item whose kind is none of the ten material kinds and
/// whose body names no `<StuffTexPath` or `<StuffCategories>` is not in the
/// stuffs list.
pub proof fn law_other_kinds_not_material(es: Seq<Entry>, b: Seq<char>)
    requires
        ({
            let l = item_kind(b);
            &&& l != "Material"@
            &&& l != "LeftoverMaterial"@
            &&& l != "Rock"@
            &&& l != "WoodBlock"@
            &&& l != "MetalBlock"@
            &&& l != "Bone"@
            &&& l != "BambooBlock"@
            &&& l != "Stuff"@
            &&& l != "Wood"@
            &&& l != "Meat"@
        }),
        !contains(b, "<StuffTexPath"@),
        !contains(b, "<StuffCategories>"@),
        item_entry(es, b) is Some,
    ensures
        !item_entry(es, b).unwrap().1.2,
        !in_category(item_entry(es, b).unwrap().0, item_entry(es, b).unwrap().1, ItemCategory::Stuffs),
{
}

/// An unlabelled item whose parent is `ToolBase` or `Item_Tool` is a tool:
/// its entry belongs in the tools list.
pub proof fn law_tool_parents(es: Seq<Entry>, b: Seq<char>)
    requires
        kind_label(b).len() == 0,
        contains(b, "Parent=\"ToolBase\""@) || contains(b, "Parent=\"Item_Tool\""@),
    ensures
        item_kind(b) == "Tool"@,
        item_entry(es, b) matches Some((k, info)) ==> info.1 == "Tool"@ && in_category(
            k,
            info,
            ItemCategory::Tools,
        ),
{
}

/// Every entry that belongs in list `c` has its shown name in that list.
pub proof fn law_category_holds(d: Seq<(Seq<char>, ItemInfo)>, c: ItemCategory, i: int)
    requires
        0 <= i < d.len(),
        in_category(d[i].0, d[i].1, c),
    ensures
        category(d, c).contains(d[i].1.0),
    decreases d.len(),
{
    if i == d.len() - 1 {
        let p = category(d.drop_last(), c);
        assert(category(d, c) == p.push(d[i].1.0));
        assert(category(d, c)[p.len() as int] == d[i].1.0);
    } else {
        law_category_holds(d.drop_last(), c, i);
        let p = category(d.drop_last(), c);
        let k = choose|k: int| 0 <= k < p.len() && p[k] == d[i].1.0;
        if in_category(d.last().0, d.last().1, c) {
            assert(category(d, c)[k] == d[i].1.0);
        } else {
            assert(category(d, c)[k] == d[i].1.0);
        }
    }
}

/// No two entries of a table share a name.
pub open spec fn keys_distinct<V>(d: Seq<(Seq<char>, V)>) -> bool {
    forall|i: int, j: int| 0 <= i < j < d.len() ==> #[trigger] d[i].0 != #[trigger] d[j].0
}

/// Where a name is not found, no entry has it.
proof fn lemma_key_pos_none<V>(d: Seq<(Seq<char>, V)>, key: Seq<char>, i: nat)
    ensures
        key_pos_from(d, key, i) is None ==> forall|j: int| i <= j < d.len() ==> #[trigger] d[j].0 != key,
    decreases d.len() - i,
{
    if i < d.len() && d[i as int].0 != key {
        lemma_key_pos_none(d, key, i + 1);
    }
}

/// Setting a name keeps the names of a table distinct.
proof fn lemma_insert_distinct<V>(d: Seq<(Seq<char>, V)>, key: Seq<char>, v: V)
    requires
        keys_distinct(d),
    ensures
        keys_distinct(table_insert(d, key, v)),
{
    lemma_key_pos_from(d, key, 0);
    lemma_key_pos_none(d, key, 0);
    let r = table_insert(d, key, v);
    assert forall|i: int, j: int| 0 <= i < j < r.len() implies #[trigger] r[i].0 != #[trigger] r[j].0 by {
        if j == d.len() {
            assert(d[i].0 != key);
        }
    }
}

/// The spell table after the bodies `bs` keeps its names distinct.
proof fn lemma_spells_distinct(es: Seq<Entry>, d: Seq<(Seq<char>, Seq<char>)>, bs: Seq<Seq<char>>)
    requires
        keys_distinct(d),
    ensures
        keys_distinct(spells_after(es, d, bs)),
    decreases bs.len(),
{
    if bs.len() > 0 {
        lemma_spells_distinct(es, d, bs.drop_last());
        let prev = spells_after(es, d, bs.drop_last());
        if let Some((k, v)) = spell_entry(es, bs.last()) {
            lemma_insert_distinct(prev, k, v);
        }
    }
}

/// The item table after the bodies `bs` keeps its names distinct.
proof fn lemma_items_distinct(es: Seq<Entry>, d: Seq<(Seq<char>, ItemInfo)>, bs: Seq<Seq<char>>)
    requires
        keys_distinct(d),
    ensures
        keys_distinct(items_after(es, d, bs)),
    decreases bs.len(),
{
    if bs.len() > 0 {
        lemma_items_distinct(es, d, bs.drop_last());
        let prev = items_after(es, d, bs.drop_last());
        if let Some((k, v)) = item_entry(es, bs.last()) {
            lemma_insert_distinct(prev, k, v);
        }
    }
}

/// Each spell name is in the spell table at most once, and each item name
/// in the item table at most once, however often the files define it.
pub proof fn law_tables_distinct(es: Seq<Entry>, files: Seq<SourceFile>)
    ensures
        keys_distinct(spell_table(es, files)),
        keys_distinct(item_table(es, files)),
    decreases files.len(),
{
    if files.len() > 0 {
        law_tables_distinct(es, files.drop_last());
        lemma_spells_distinct(es, spell_table(es, files.drop_last()), spell_blocks(files.last().content@));
        lemma_items_distinct(es, item_table(es, files.drop_last()), thing_blocks(files.last().content@));
    }
}

/// A spell body that defines a name the table already holds replaces that
/// entry in place: the table keeps its length and only that entry changes.
pub proof fn law_spell_redefinition(
    es: Seq<Entry>,
    d: Seq<(Seq<char>, Seq<char>)>,
    bs: Seq<Seq<char>>,
    b: Seq<char>,
    i: int,
)
    requires
        keys_distinct(d),
        spell_entry(es, b) is Some,
        0 <= i < spells_after(es, d, bs).len(),
        spells_after(es, d, bs)[i].0 == spell_entry(es, b).unwrap().0,
    ensures
        spells_after(es, d, bs.push(b)) == spells_after(es, d, bs).update(i, spell_entry(es, b).unwrap()),
{
    let prev = spells_after(es, d, bs);
    assert(bs.push(b).drop_last() =~= bs);
    let (k, v) = spell_entry(es, b).unwrap();
    lemma_key_pos_from(prev, k, 0);
    lemma_key_pos_none(prev, k, 0);
    lemma_spells_distinct(es, d, bs);
    let p = key_pos(prev, k).unwrap();
    if p != i as nat {
        if (p as int) < i {
            assert(prev[p as int].0 == prev[i].0);
        } else {
            assert(prev[i].0 == prev[p as int].0);
        }
    }
}

/// A split at the first occurrence puts the pattern back between the parts.
proof fn lemma_split_once_parts(s: Seq<char>, pat: Seq<char>)
    ensures
        split_once(s, pat) matches Some((a, b)) ==> s == a + pat + b,
{
    lemma_find_from_bounds(s, pat, 0);
    if let Some(i) = find(s, pat) {
        let a = s.subrange(0, i as int);
        let b = s.subrange((i + pat.len()) as int, s.len() as int);
        assert(s.subrange(i as int, (i + pat.len()) as int) == pat);
        assert(s =~= a + pat + b);
    }
}

/// The part before the first occurrence of a pattern does not hold it.
proof fn lemma_before_first(s: Seq<char>, pat: Seq<char>)
    requires
        pat.len() > 0,
    ensures
        split_once(s, pat) matches Some((a, _)) ==> !contains(a, pat),
{
    lemma_find_from_bounds(s, pat, 0);
    if let Some(i) = find(s, pat) {
        let a = s.subrange(0, i as int);
        lemma_find_from_bounds(a, pat, 0);
        if let Some(k) = find(a, pat) {
            assert(a.subrange(k as int, (k + pat.len()) as int) =~= s.subrange(k as int, (k + pat.len()) as int));
            assert(matches_at(s, pat, k as int));
        }
    }
}

/// A text that ends with `Name="` and then fewer than six characters does
/// not end with `Parent`; with six or more, it ends with `Parent` just when
/// those characters do.
proof fn lemma_parent_after_name(a: Seq<char>, c: Seq<char>)
    ensures
        ends_with(a + "Name=\""@ + c, "Parent"@) ==> ends_with(c, "Parent"@),
{
    reveal_strlit("Name=\"");
    reveal_strlit("Parent");
    let pat = "Name=\""@;
    let x = a + pat + c;
    if ends_with(x, "Parent"@) {
        if c.len() >= 6 {
            assert(x.subrange(x.len() - 6, x.len() as int) =~= c.subrange(c.len() - 6, c.len() as int));
        } else {
            let p = 5 - c.len();
            assert(x[x.len() - 1 - c.len()] == '"');
            assert(x.subrange(x.len() - 6, x.len() as int)[p] == x[x.len() - 1 - c.len()]);
            assert("Parent"@[p] != '"');
        }
    }
}

/// `r` is `left`, then `Name="v"` with `v` free of quotes, then `rest`;
/// `left` does not end with `Parent`, and every `Name="` that starts within
/// `left` is preceded by `Parent`: this is the first `Name="` attribute
/// that is not a `ParentName="` one.
pub open spec fn name_at(r: Seq<char>, left: Seq<char>, v: Seq<char>, rest: Seq<char>) -> bool {
    &&& r == left + "Name=\""@ + v + "\""@ + rest
    &&& !ends_with(left, "Parent"@)
    &&& !contains(v, "\""@)
    &&& forall|j: int|
        0 <= j < left.len() && #[trigger] matches_at(r, "Name=\""@, j) ==> ends_with(
            r.subrange(0, j),
            "Parent"@,
        )
}

/// A suffix of the end is a suffix of the whole.
proof fn lemma_ends_with_append(a: Seq<char>, c: Seq<char>, suf: Seq<char>)
    requires
        ends_with(c, suf),
    ensures
        ends_with(a + c, suf),
{
    let x = a + c;
    assert(x.subrange(x.len() - suf.len(), x.len() as int) =~= c.subrange(
        c.len() - suf.len(),
        c.len() as int,
    ));
}

/// Past a `ParentName="` attribute, the name found in the rest is the
/// name of the whole.
#[verifier::spinoff_prover]
#[verifier::rlimit(40)]
proof fn lemma_name_after_parent(
    r: Seq<char>,
    left: Seq<char>,
    right: Seq<char>,
    l2: Seq<char>,
    v: Seq<char>,
    rest: Seq<char>,
)
    requires
        r == left + "Name=\""@ + right,
        ends_with(left, "Parent"@),
        forall|j: int| 0 <= j < left.len() ==> !matches_at(r, "Name=\""@, j),
        name_at(right, l2, v, rest),
    ensures
        name_at(r, left + "Name=\""@ + l2, v, rest),
{
    reveal_strlit("Name=\"");
    let pat = "Name=\""@;
    let q = "\""@;
    let l = left + pat + l2;
    lemma_parent_after_name(left, l2);
    assert(r =~= l + pat + v + q + rest);
    let i = left.len() as int;
    assert forall|j: int| 0 <= j < l.len() && #[trigger] matches_at(r, pat, j) implies ends_with(
        r.subrange(0, j),
        "Parent"@,
    ) by {
        if j < i {
        } else if j == i {
            assert(r.subrange(0, j) =~= left);
        } else if j < i + 6 {
            assert(r.subrange(j, j + 6)[0] == r[j]);
            assert(r[j] == pat[j - i]);
        } else {
            let jj = j - i - 6;
            assert(r.subrange(j, j + 6) =~= right.subrange(jj, jj + 6));
            assert(matches_at(right, pat, jj));
            assert(ends_with(right.subrange(0, jj), "Parent"@));
            assert(r.subrange(0, j) =~= left + pat + right.subrange(0, jj));
            lemma_ends_with_append(left + pat, right.subrange(0, jj), "Parent"@);
        }
    }
}

/// The name attribute of a definition is the value of the first `Name="v"`
/// in its text that is not preceded by `Parent` (see `name_at`): the value
/// of a `ParentName="..."` attribute is never the name.
pub proof fn law_name_attr_not_parent(r: Seq<char>)
    ensures
        name_attr(r) is Some ==> exists|left: Seq<char>, rest: Seq<char>| #[trigger] name_at(
            r,
            left,
            name_attr(r).unwrap(),
            rest,
        ),
    decreases r.len(),
{
    reveal_strlit("Name=\"");
    reveal_strlit("\"");
    let pat = "Name=\""@;
    let q = "\""@;
    if let Some((left, right)) = split_once(r, pat) {
        lemma_split_once_parts(r, pat);
        if !ends_with(left, "Parent"@) {
            if let Some((v, rest)) = split_once(right, q) {
                lemma_split_once_parts(right, q);
                lemma_before_first(right, q);
                assert(r =~= left + pat + v + q + rest);
                lemma_find_from_bounds(r, pat, 0);
                assert(name_at(r, left, v, rest));
                assert(name_attr(r) == Some(v));
                assert(name_attr(r).unwrap() == v);
            } else {
                assert(name_attr(r) is None);
            }
        } else {
            lemma_find_from_bounds(r, pat, 0);
            law_name_attr_not_parent(right);
            assert(name_attr(r) == name_attr(right));
            if let Some(v) = name_attr(right) {
                let (l2, rest) = choose|l2: Seq<char>, rest: Seq<char>| #[trigger] name_at(right, l2, v, rest);
                let l = left + pat + l2;
                lemma_name_after_parent(r, left, right, l2, v, rest);
                assert(name_at(r, l, v, rest));
                assert(name_attr(r).unwrap() == v);
            } else {
                assert(name_attr(r) is None);
            }
        }
    } else {
        assert(name_attr(r) is None);
    }
}

} // verus!
