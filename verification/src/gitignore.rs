//! The ignore-file store: an ordered mapping from section name to body
//! lines, loaded from the framed text format and serialized back to it.
//!
//! A section named after a group holds that group's rendered entries; the
//! reserved section `_` holds loose patterns added directly. Section names
//! are unique, and the store keeps insertion order, so serialization is
//! deterministic.

use vstd::prelude::*;

use crate::args::Change;
use crate::args::ChangeSpec;
use crate::ignore_groups::cat_get;
use crate::ignore_groups::GroupSpec;
use crate::ignore_groups::IgnoreGroup;
use crate::ignore_groups::IgnoreItem;
use crate::ignore_groups::IgnoreGroups;
use crate::ignore_groups::ItemSpec;
use crate::text::has_prefix;
use crate::text::has_suffix;
use crate::text::remove_all_spec;
use crate::text::remove_all_str;
use crate::text::split_lines_spec;
use crate::text::split_lines_str;
use crate::text::str_eq;
use crate::text::str_has_prefix;
use crate::text::str_has_suffix;
use crate::text::trim_end_spec;
use crate::text::trim_end_str;
use crate::text::trim_spec;
use crate::text::trim_str;
use crate::Error;
use crate::ErrorSpec;

verus! {

/// One named block of body lines inside the ignore file.
#[derive(Debug)]
pub struct Section {
    pub name: String,
    pub lines: Vec<String>,
}

/// Mathematical image of `Section`.
pub struct SectionSpec {
    pub name: Seq<char>,
    pub lines: Seq<Seq<char>>,
}

impl View for Section {
    type V = SectionSpec;

    open spec fn view(&self) -> SectionSpec {
        SectionSpec { name: self.name@, lines: self.lines.deep_view() }
    }
}

impl DeepView for Section {
    type V = SectionSpec;

    open spec fn deep_view(&self) -> SectionSpec {
        self.view()
    }
}

/// The in-memory ignore file: its sections in insertion order.
#[derive(Debug)]
pub struct GitIgnore {
    sections: Vec<Section>,
}

impl View for GitIgnore {
    type V = Seq<SectionSpec>;

    closed spec fn view(&self) -> Seq<SectionSpec> {
        self.sections.deep_view()
    }
}

/// Section names are unique within a store.
pub open spec fn secs_unique(secs: Seq<SectionSpec>) -> bool {
    forall|i: int, j: int| 0 <= i < j < secs.len() ==> secs[i].name != secs[j].name
}

/// Position of the first section named `name`, or `secs.len()` if none.
pub open spec fn sec_index_of(secs: Seq<SectionSpec>, name: Seq<char>) -> int
    decreases secs.len(),
{
    if secs.len() == 0 {
        0
    } else if secs[0].name == name {
        0
    } else {
        1 + sec_index_of(secs.drop_first(), name)
    }
}

/// A section named `name` exists.
pub open spec fn sec_contains(secs: Seq<SectionSpec>, name: Seq<char>) -> bool {
    sec_index_of(secs, name) < secs.len()
}

/// The body lines of the first section named `name`, if any.
pub open spec fn sec_get(secs: Seq<SectionSpec>, name: Seq<char>) -> Option<Seq<Seq<char>>> {
    if sec_contains(secs, name) {
        Option::Some(secs[sec_index_of(secs, name)].lines)
    } else {
        Option::None
    }
}

/// Replaces the body of the section named `name`, or appends a new section.
pub open spec fn upsert_section(secs: Seq<SectionSpec>, name: Seq<char>, lines: Seq<Seq<char>>)
    -> Seq<SectionSpec> {
    let i = sec_index_of(secs, name);
    if i < secs.len() {
        secs.update(i, SectionSpec { name, lines })
    } else {
        secs.push(SectionSpec { name, lines })
    }
}

/// Removes the first section named `name` (unchanged when none exists).
pub open spec fn remove_section(secs: Seq<SectionSpec>, name: Seq<char>) -> Seq<SectionSpec> {
    let i = sec_index_of(secs, name);
    if i < secs.len() {
        secs.remove(i)
    } else {
        secs
    }
}

pub proof fn lemma_sec_index_of_at(secs: Seq<SectionSpec>, name: Seq<char>, i: int)
    requires
        0 <= i <= secs.len(),
        forall|k: int| 0 <= k < i ==> secs[k].name != name,
        i < secs.len() ==> secs[i].name == name,
    ensures
        sec_index_of(secs, name) == i,
    decreases i,
{
    if i > 0 {
        assert forall|k: int| 0 <= k < i - 1 implies secs.drop_first()[k].name != name by {
            assert(secs.drop_first()[k] == secs[k + 1]);
        }
        assert(i - 1 < secs.drop_first().len() ==> secs.drop_first()[i - 1].name == name);
        lemma_sec_index_of_at(secs.drop_first(), name, i - 1);
    } else {
        if secs.len() > 0 {
            assert(i < secs.len());
        }
    }
}

pub proof fn lemma_sec_index_of_props(secs: Seq<SectionSpec>, name: Seq<char>)
    ensures
        0 <= sec_index_of(secs, name) <= secs.len(),
        sec_index_of(secs, name) < secs.len() ==> secs[sec_index_of(secs, name)].name == name,
        forall|k: int| 0 <= k < sec_index_of(secs, name) ==> secs[k].name != name,
    decreases secs.len(),
{
    if secs.len() > 0 && secs[0].name != name {
        lemma_sec_index_of_props(secs.drop_first(), name);
        let i = sec_index_of(secs, name);
        assert forall|k: int| 0 <= k < i implies secs[k].name != name by {
            if k > 0 {
                assert(secs.drop_first()[k - 1] == secs[k]);
            }
        }
        if i < secs.len() {
            assert(secs.drop_first()[i - 1] == secs[i]);
        }
    }
}

impl GitIgnore {
    /// Section names are unique.
    pub open spec fn wf(&self) -> bool {
        secs_unique(self@)
    }

    /// An empty store, for a freshly created ignore file.
    pub fn new() -> (r: GitIgnore)
        ensures
            r@ == Seq::<SectionSpec>::empty(),
            r.wf(),
    {
        let g = GitIgnore { sections: Vec::new() };
        proof {
            assert(g@ =~= Seq::<SectionSpec>::empty());
        }
        g
    }

    /// Whether a section named `group` exists.
    pub fn has_group(&self, group: &str) -> (r: bool)
        ensures
            r == sec_contains(self@, group@),
    {
        let mut j: usize = 0;
        while j < self.sections.len()
            invariant
                j <= self@.len(),
                forall|k: int| 0 <= k < j ==> self@[k].name != group@,
            decreases self@.len() - j,
        {
            if str_eq(self.sections[j].name.as_str(), group) {
                proof {
                    lemma_sec_index_of_at(self@, group@, j as int);
                }
                return true;
            }
            j += 1;
        }
        proof {
            lemma_sec_index_of_at(self@, group@, self@.len() as int);
        }
        false
    }

    /// Deletes the section named `group`; fails when it is absent, leaving
    /// the store unmodified.
    pub fn remove_group(&mut self, group: &str) -> (r: Result<(), Error>)
        requires
            old(self).wf(),
        ensures
            final(self).wf(),
            match r {
                Ok(_) => sec_contains(old(self)@, group@) && final(self)@ == remove_section(
                    old(self)@,
                    group@,
                ),
                Err(e) => !sec_contains(old(self)@, group@) && final(self)@ == old(self)@ && e@
                    == ErrorSpec::GroupNotFound(group@),
            },
    {
        let mut j: usize = 0;
        while j < self.sections.len()
            invariant
                self@ == old(self)@,
                old(self).wf(),
                j <= self@.len(),
                forall|k: int| 0 <= k < j ==> self@[k].name != group@,
            decreases self@.len() - j,
    {
            if str_eq(self.sections[j].name.as_str(), group) {
                proof {
                    lemma_sec_index_of_at(self@, group@, j as int);
                }
                self.sections.remove(j);
                proof {
                    assert(self@ =~= old(self)@.remove(j as int));
                }
                return Ok(());
            }
            j += 1;
        }
        proof {
            lemma_sec_index_of_at(self@, group@, self@.len() as int);
        }
        Err(Error::GroupNotFound(group.to_owned()))
    }
}

/// Some stored line, compared with its trailing whitespace dropped, equals
/// `item`.
pub open spec fn sec_has_line(secs: Seq<SectionSpec>, item: Seq<char>) -> bool {
    exists|i: int, j: int|
        0 <= i < secs.len() && 0 <= j < secs[i].lines.len() && trim_end_spec(secs[i].lines[j])
            == item
}

/// Appends the trimmed pattern to the reserved loose-items section, opening
/// it (with a leading blank line) when absent.
pub open spec fn append_loose(secs: Seq<SectionSpec>, trimmed: Seq<char>) -> Seq<SectionSpec> {
    let i = sec_index_of(secs, "_"@);
    if i < secs.len() {
        secs.update(i, SectionSpec { name: secs[i].name, lines: secs[i].lines.push(trimmed) })
    } else {
        secs.push(SectionSpec { name: "_"@, lines: seq![Seq::<char>::empty(), trimmed] })
    }
}

/// What adding a loose pattern does: nothing when some line already equals
/// it (ignoring trailing whitespace on the line), else an append to `_`.
pub open spec fn add_item_spec(secs: Seq<SectionSpec>, item: Seq<char>) -> Seq<SectionSpec> {
    if sec_has_line(secs, item) {
        secs
    } else {
        append_loose(secs, trim_end_spec(item))
    }
}

/// Every line of every section with all occurrences of `item` removed.
pub open spec fn remove_item_spec(secs: Seq<SectionSpec>, item: Seq<char>) -> Seq<SectionSpec> {
    secs.map_values(
        |s: SectionSpec| SectionSpec {
            name: s.name,
            lines: s.lines.map_values(|l: Seq<char>| remove_all_spec(l, item)),
        },
    )
}

impl GitIgnore {
    /// Adds a loose pattern unless some stored line already equals it; the
    /// pattern is stored with its trailing whitespace dropped.
    pub fn add_item(&mut self, item: &str)
        requires
            old(self).wf(),
        ensures
            final(self).wf(),
            final(self)@ == add_item_spec(old(self)@, item@),
    {
        let mut i: usize = 0;
        while i < self.sections.len()
            invariant
                self@ == old(self)@,
                old(self).wf(),
                i <= self@.len(),
                forall|a: int, b: int|
                    0 <= a < i && 0 <= b < self@[a].lines.len() ==> trim_end_spec(
                        self@[a].lines[b],
                    ) != item@,
            decreases self@.len() - i,
        {
            let sec = &self.sections[i];
            let mut j: usize = 0;
            while j < sec.lines.len()
                invariant
                    self@ == old(self)@,
                    old(self).wf(),
                    sec@ == self@[i as int],
                    i < self@.len(),
                    j <= sec@.lines.len(),
                    forall|b: int| 0 <= b < j ==> trim_end_spec(sec@.lines[b]) != item@,
                decreases sec@.lines.len() - j,
            {
                let t = trim_end_str(sec.lines[j].as_str());
                if str_eq(t.as_str(), item) {
                    proof {
                        assert(trim_end_spec(self@[i as int].lines[j as int]) == item@);
                        assert(sec_has_line(self@, item@));
                    }
                    return ;
                }
                j += 1;
            }
            i += 1;
        }
        proof {
            assert(!sec_has_line(self@, item@));
        }
        let trimmed = trim_end_str(item);
        let mut k: usize = 0;
        while k < self.sections.len()
            invariant
                self@ == old(self)@,
                old(self).wf(),
                !sec_has_line(old(self)@, item@),
                trimmed@ == trim_end_spec(item@),
                k <= self@.len(),
                forall|t: int| 0 <= t < k ==> self@[t].name != "_"@,
            decreases self@.len() - k,
        {
            if str_eq(self.sections[k].name.as_str(), "_") {
                proof {
                    lemma_sec_index_of_at(self@, "_"@, k as int);
                }
                let ghost before = self@;
                let sec = &mut self.sections[k];
                sec.lines.push(trimmed);
                proof {
                    assert(self@[k as int].lines =~= before[k as int].lines.push(
                        trim_end_spec(item@),
                    ));
                    assert(self@ =~= append_loose(before, trim_end_spec(item@)));
                    assert(secs_unique(self@));
                }
                return ;
            }
            k += 1;
        }
        proof {
            lemma_sec_index_of_at(self@, "_"@, self@.len() as int);
        }
        let ghost before = self@;
        let mut lines: Vec<String> = Vec::new();
        lines.push(String::new());
        lines.push(trimmed);
        let fresh = Section { name: "_".to_owned(), lines };
        proof {
            assert(fresh@.lines =~= seq![Seq::<char>::empty(), trim_end_spec(item@)]);
        }
        self.sections.push(fresh);
        proof {
            assert(self@ =~= append_loose(before, trim_end_spec(item@)));
            assert(secs_unique(self@));
        }
    }

    /// Erases every occurrence of `item` from every stored line. This is a
    /// deliberately coarse, substring-level erase: a match embedded in a
    /// longer line is removed as well.
    pub fn remove_item(&mut self, item: &str)
        requires
            old(self).wf(),
        ensures
            final(self).wf(),
            final(self)@ == remove_item_spec(old(self)@, item@),
    {
        let mut updated: Vec<Section> = Vec::new();
        let mut i: usize = 0;
        while i < self.sections.len()
            invariant
                self@ == old(self)@,
                old(self).wf(),
                i <= self@.len(),
                updated.deep_view() =~= remove_item_spec(self@.take(i as int), item@),
            decreases self@.len() - i,
        {
            let sec = &self.sections[i];
            let mut lines: Vec<String> = Vec::new();
            let mut j: usize = 0;
            while j < sec.lines.len()
                invariant
                    sec@ == self@[i as int],
                    i < self@.len(),
                    j <= sec@.lines.len(),
                    lines.deep_view() =~= sec@.lines.take(j as int).map_values(
                        |l: Seq<char>| remove_all_spec(l, item@),
                    ),
                decreases sec@.lines.len() - j,
            {
                let ghost prev = lines.deep_view();
                lines.push(remove_all_str(sec.lines[j].as_str(), item));
                proof {
                    assert(lines.deep_view() =~= prev.push(
                        remove_all_spec(sec@.lines[j as int], item@),
                    ));
                    assert(sec@.lines.take(j as int + 1).map_values(
                        |l: Seq<char>| remove_all_spec(l, item@),
                    ) =~= sec@.lines.take(j as int).map_values(
                        |l: Seq<char>| remove_all_spec(l, item@),
                    ).push(remove_all_spec(sec@.lines[j as int], item@)));
                }
                j += 1;
            }
            let ghost prevu = updated.deep_view();
            updated.push(Section { name: sec.name.clone(), lines });
            proof {
                assert(sec@.lines.take(sec@.lines.len() as int) =~= sec@.lines);
                assert(updated.deep_view() =~= prevu.push(
                    SectionSpec {
                        name: self@[i as int].name,
                        lines: self@[i as int].lines.map_values(
                            |l: Seq<char>| remove_all_spec(l, item@),
                        ),
                    },
                ));
                assert(self@.take(i as int + 1).map_values(
                    |s: SectionSpec| SectionSpec {
                        name: s.name,
                        lines: s.lines.map_values(|l: Seq<char>| remove_all_spec(l, item@)),
                    },
                ) =~= self@.take(i as int).map_values(
                    |s: SectionSpec| SectionSpec {
                        name: s.name,
                        lines: s.lines.map_values(|l: Seq<char>| remove_all_spec(l, item@)),
                    },
                ).push(
                    SectionSpec {
                        name: self@[i as int].name,
                        lines: self@[i as int].lines.map_values(
                            |l: Seq<char>| remove_all_spec(l, item@),
                        ),
                    },
                ));
            }
            i += 1;
        }
        self.sections = updated;
        proof {
            assert(old(self)@.take(old(self)@.len() as int) =~= old(self)@);
            assert(forall|t: int|
                0 <= t < self@.len() ==> self@[t].name == #[trigger] old(self)@[t].name);
        }
    }
}

/// The body lines a group's entries render to: items verbatim, each run of
/// comments preceded by one blank line, dependencies contributing nothing
/// here (they expand into their own sections).
pub open spec fn render_rec(items: Seq<ItemSpec>, after_comment: bool) -> Seq<Seq<char>>
    decreases items.len(),
{
    if items.len() == 0 {
        Seq::empty()
    } else {
        match items[0] {
            ItemSpec::Item(s) => seq![s] + render_rec(items.drop_first(), false),
            ItemSpec::Comment(c) => (if after_comment {
                Seq::empty()
            } else {
                seq![Seq::<char>::empty()]
            }) + seq!["# "@ + c] + render_rec(items.drop_first(), true),
            ItemSpec::Dependency(_) => render_rec(items.drop_first(), after_comment),
        }
    }
}

pub open spec fn render_lines(items: Seq<ItemSpec>) -> Seq<Seq<char>> {
    render_rec(items, false)
}

/// Renders a group's entries into body lines.
fn render_group_lines(items: &Vec<IgnoreItem>) -> (r: Vec<String>)
    ensures
        r.deep_view() == render_lines(items.deep_view()),
{
    let mut out: Vec<String> = Vec::new();
    let mut after_comment: bool = false;
    let mut i: usize = 0;
    let ghost dv = items.deep_view();
    proof {
        assert(dv.skip(0) =~= dv);
        assert(out.deep_view() + render_rec(dv, false) =~= render_rec(dv, false));
    }
    while i < items.len()
        invariant
            dv == items.deep_view(),
            dv.len() == items@.len(),
            i <= items@.len(),
            render_lines(dv) == out.deep_view() + render_rec(dv.skip(i as int), after_comment),
        decreases items@.len() - i,
    {
        let ghost rest = dv.skip(i as int);
        proof {
            assert(rest[0] == dv[i as int]);
            assert(rest.drop_first() =~= dv.skip(i as int + 1));
        }
        let ghost prev = out.deep_view();
        match &items[i] {
            IgnoreItem::Item(s) => {
                out.push(s.clone());
                after_comment = false;
                proof {
                    assert(out.deep_view() =~= prev.push(s@));
                    assert(prev + (seq![s@] + render_rec(rest.drop_first(), false)) =~= prev.push(
                        s@,
                    ) + render_rec(dv.skip(i as int + 1), false));
                }
            },
            IgnoreItem::Comment(c) => {
                let mut line = String::new();
                line.append("# ");
                line.append(c.as_str());
                if !after_comment {
                    out.push(String::new());
                }
                let ghost mid = out.deep_view();
                out.push(line);
                proof {
                    if after_comment {
                        assert(mid == prev);
                    } else {
                        assert(mid =~= prev.push(Seq::<char>::empty()));
                    }
                    assert(out.deep_view() =~= mid.push("# "@ + c@));
                    if after_comment {
                        assert(prev + (Seq::<Seq<char>>::empty() + seq!["# "@ + c@]
                            + render_rec(rest.drop_first(), true)) =~= out.deep_view()
                            + render_rec(dv.skip(i as int + 1), true));
                    } else {
                        assert(prev + (seq![Seq::<char>::empty()] + seq!["# "@ + c@]
                            + render_rec(rest.drop_first(), true)) =~= out.deep_view()
                            + render_rec(dv.skip(i as int + 1), true));
                    }
                }
                after_comment = true;
            },
            IgnoreItem::Dependency(_) => {},
        }
        i += 1;
    }
    proof {
        assert(dv.skip(dv.len() as int) =~= Seq::<ItemSpec>::empty());
        assert(out.deep_view() + Seq::<Seq<char>>::empty() =~= out.deep_view());
    }
    out
}

/// How many catalog groups are not yet on the expansion path: the measure
/// that bounds dependency recursion.
pub open spec fn remaining_count(cat: Seq<GroupSpec>, visiting: Seq<Seq<char>>) -> nat
    decreases cat.len(),
{
    if cat.len() == 0 {
        0
    } else {
        (if !visiting.contains(cat[0].name) {
            1nat
        } else {
            0nat
        }) + remaining_count(cat.drop_first(), visiting)
    }
}

pub proof fn lemma_remaining_push_le(cat: Seq<GroupSpec>, visiting: Seq<Seq<char>>, name: Seq<char>)
    ensures
        remaining_count(cat, visiting.push(name)) <= remaining_count(cat, visiting),
    decreases cat.len(),
{
    if cat.len() > 0 {
        lemma_remaining_push_le(cat.drop_first(), visiting, name);
        if visiting.contains(cat[0].name) {
            let w = choose|w: int| 0 <= w < visiting.len() && visiting[w] == cat[0].name;
            assert(visiting.push(name)[w] == cat[0].name);
        }
    }
}

pub proof fn lemma_remaining_push_lt(cat: Seq<GroupSpec>, visiting: Seq<Seq<char>>, name: Seq<char>)
    requires
        exists|t: int| 0 <= t < cat.len() && cat[t].name == name,
        !visiting.contains(name),
    ensures
        remaining_count(cat, visiting.push(name)) < remaining_count(cat, visiting),
    decreases cat.len(),
{
    let t = choose|t: int| 0 <= t < cat.len() && cat[t].name == name;
    if cat[0].name == name {
        assert(visiting.push(name)[visiting.len() as int] == name);
        assert(visiting.push(name).contains(name));
        lemma_remaining_push_le(cat.drop_first(), visiting, name);
    } else {
        assert(cat.drop_first()[t - 1].name == name);
        lemma_remaining_push_lt(cat.drop_first(), visiting, name);
        if visiting.contains(cat[0].name) {
            let w = choose|w: int| 0 <= w < visiting.len() && visiting[w] == cat[0].name;
            assert(visiting.push(name)[w] == cat[0].name);
        }
    }
}

/// What adding the group named `name` does to the store: a no-op when its
/// section exists and force is off; a cycle error when the name is already
/// on the expansion path; otherwise its dependencies expand in order, and
/// the rendered body replaces (or creates) the section keyed by the name.
pub open spec fn apply_group_spec(
    secs: Seq<SectionSpec>,
    cat: Seq<GroupSpec>,
    name: Seq<char>,
    force: bool,
    visiting: Seq<Seq<char>>,
) -> (Seq<SectionSpec>, Result<(), ErrorSpec>)
    decreases remaining_count(cat, visiting), 0nat, 0nat,
    via apply_group_spec_dec
{
    match cat_get(cat, name) {
        Option::None => (secs, Err(ErrorSpec::UnknownGroup(name))),
        Option::Some(g) => {
            if sec_contains(secs, name) && !force {
                (secs, Ok(()))
            } else if visiting.contains(name) {
                (secs, Err(ErrorSpec::DependencyCycle(name)))
            } else {
                let r = apply_items_spec(secs, cat, g.items, force, visiting.push(name));
                match r.1 {
                    Err(e) => (r.0, Err(e)),
                    Ok(_) => (upsert_section(r.0, name, render_lines(g.items)), Ok(())),
                }
            }
        },
    }
}

/// Expands the dependencies among `items`, left to right.
pub open spec fn apply_items_spec(
    secs: Seq<SectionSpec>,
    cat: Seq<GroupSpec>,
    items: Seq<ItemSpec>,
    force: bool,
    visiting: Seq<Seq<char>>,
) -> (Seq<SectionSpec>, Result<(), ErrorSpec>)
    decreases remaining_count(cat, visiting), 1nat, items.len(),
{
    if items.len() == 0 {
        (secs, Ok(()))
    } else {
        match items[0] {
            ItemSpec::Dependency(d) => {
                let r = apply_group_spec(secs, cat, d, force, visiting);
                match r.1 {
                    Err(e) => (r.0, Err(e)),
                    Ok(_) => apply_items_spec(r.0, cat, items.drop_first(), force, visiting),
                }
            },
            _ => apply_items_spec(secs, cat, items.drop_first(), force, visiting),
        }
    }
}

/// Mathematical image of a unit result.
pub open spec fn res_spec(r: Result<(), Error>) -> Result<(), ErrorSpec> {
    match r {
        Ok(_) => Ok(()),
        Err(e) => Err(e@),
    }
}

/// `visiting` extended by one more name.
fn push_name(visiting: &Vec<String>, name: &String) -> (r: Vec<String>)
    ensures
        r.deep_view() == visiting.deep_view().push(name@),
{
    let mut out: Vec<String> = Vec::new();
    let mut i: usize = 0;
    proof {
        assert(out.deep_view() =~= visiting.deep_view().take(0));
    }
    while i < visiting.len()
        invariant
            i <= visiting@.len(),
            out.deep_view() == visiting.deep_view().take(i as int),
        decreases visiting@.len() - i,
    {
        let ghost prev = out.deep_view();
        out.push(visiting[i].clone());
        proof {
            assert(out.deep_view() =~= prev.push(visiting.deep_view()[i as int]));
            assert(prev.push(visiting.deep_view()[i as int]) =~= visiting.deep_view().take(
                i as int + 1,
            ));
        }
        i += 1;
    }
    let ghost prev = out.deep_view();
    out.push(name.clone());
    proof {
        assert(visiting.deep_view().take(visiting@.len() as int) =~= visiting.deep_view());
        assert(out.deep_view() =~= visiting.deep_view().push(name@));
    }
    out
}

/// Whether `name` is on the expansion path.
fn visiting_contains(visiting: &Vec<String>, name: &str) -> (r: bool)
    ensures
        r == visiting.deep_view().contains(name@),
{
    let mut i: usize = 0;
    while i < visiting.len()
        invariant
            i <= visiting@.len(),
            forall|k: int| 0 <= k < i ==> visiting.deep_view()[k] != name@,
        decreases visiting@.len() - i,
    {
        if str_eq(visiting[i].as_str(), name) {
            proof {
                assert(visiting.deep_view()[i as int] == name@);
            }
            return true;
        }
        i += 1;
    }
    proof {
        assert(!visiting.deep_view().contains(name@));
    }
    false
}

impl GitIgnore {
    /// Adds `group`'s rendered section, expanding its dependencies first.
    /// With force off an existing section is kept untouched; with force on it
    /// is re-rendered. Re-entering a group still being expanded is reported
    /// as a dependency cycle instead of recursing without bound.
    pub fn add_group(&mut self, group: &IgnoreGroup, force: bool, igs: &IgnoreGroups) -> (r:
        Result<(), Error>)
        requires
            old(self).wf(),
            igs.wf(),
            cat_get(igs@, group@.name) == Option::Some(group@),
        ensures
            final(self).wf(),
            final(self)@ == apply_group_spec(
                old(self)@,
                igs@,
                group@.name,
                force,
                Seq::empty(),
            ).0,
            res_spec(r) == apply_group_spec(
                old(self)@,
                igs@,
                group@.name,
                force,
                Seq::empty(),
            ).1,
    {
        let visiting: Vec<String> = Vec::new();
        proof {
            assert(visiting.deep_view() =~= Seq::<Seq<char>>::empty());
        }
        self.add_group_rec(group, force, igs, &visiting)
    }

    fn add_group_rec(
        &mut self,
        group: &IgnoreGroup,
        force: bool,
        igs: &IgnoreGroups,
        visiting: &Vec<String>,
    ) -> (r: Result<(), Error>)
        requires
            old(self).wf(),
            igs.wf(),
            cat_get(igs@, group@.name) == Option::Some(group@),
        ensures
            final(self).wf(),
            final(self)@ == apply_group_spec(
                old(self)@,
                igs@,
                group@.name,
                force,
                visiting.deep_view(),
            ).0,
            res_spec(r) == apply_group_spec(
                old(self)@,
                igs@,
                group@.name,
                force,
                visiting.deep_view(),
            ).1,
        decreases remaining_count(igs@, visiting.deep_view()),
    {
        let ghost s0 = self@;
        let ghost g = group@;
        let ghost vd = visiting.deep_view();
        if self.has_group(group.name.as_str()) && !force {
            return Ok(());
        }
        if visiting_contains(visiting, group.name.as_str()) {
            return Err(Error::DependencyCycle(group.name.clone()));
        }
        let child = push_name(visiting, &group.name);
        let ghost cvd = child.deep_view();
        proof {
            crate::ignore_groups::lemma_group_index_of_props(igs@, g.name);
            lemma_remaining_push_lt(igs@, vd, g.name);
        }
        let ghost items = g.items;
        proof {
            assert(items.skip(0) =~= items);
        }
        let mut i: usize = 0;
        while i < group.items.len()
            invariant
                self.wf(),
                igs.wf(),
                g == group@,
                items == g.items,
                s0 == old(self)@,
                vd == visiting.deep_view(),
                cvd == child.deep_view(),
                cvd == vd.push(g.name),
                cat_get(igs@, g.name) == Option::Some(g),
                !(sec_contains(s0, g.name) && !force),
                !vd.contains(g.name),
                remaining_count(igs@, cvd) < remaining_count(igs@, vd),
                i <= items.len(),
                apply_items_spec(self@, igs@, items.skip(i as int), force, cvd)
                    == apply_items_spec(s0, igs@, items, force, cvd),
            decreases items.len() - i,
        {
            let ghost rest = items.skip(i as int);
            proof {
                assert(rest[0] == items[i as int]);
                assert(rest.drop_first() =~= items.skip(i as int + 1));
            }
            match &group.items[i] {
                IgnoreItem::Dependency(d) => {
                    let ghost pre = self@;
                    match igs.get(d.as_str()) {
                        Err(e) => {
                            proof {
                                assert(apply_group_spec(pre, igs@, d@, force, cvd) == (
                                    pre,
                                    Err::<(), ErrorSpec>(ErrorSpec::UnknownGroup(d@)),
                                ));
                            }
                            return Err(e);
                        },
                        Ok(dep_group) => {
                            match self.add_group_rec(dep_group, force, igs, &child) {
                                Err(e) => {
                                    proof {
                                        assert(apply_items_spec(pre, igs@, rest, force, cvd) == (
                                            self@,
                                            Err::<(), ErrorSpec>(e@),
                                        ));
                                    }
                                    return Err(e);
                                },
                                Ok(_) => {
                                    proof {
                                        assert(apply_items_spec(pre, igs@, rest, force, cvd)
                                            == apply_items_spec(
                                            self@,
                                            igs@,
                                            items.skip(i as int + 1),
                                            force,
                                            cvd,
                                        ));
                                    }
                                },
                            }
                        },
                    }
                },
                _ => {
                    proof {
                        assert(apply_items_spec(self@, igs@, rest, force, cvd)
                            == apply_items_spec(
                            self@,
                            igs@,
                            items.skip(i as int + 1),
                            force,
                            cvd,
                        ));
                    }
                },
            }
            i += 1;
        }
        proof {
            assert(items.skip(items.len() as int) =~= Seq::<ItemSpec>::empty());
            assert(apply_items_spec(s0, igs@, items, force, cvd) == (
                self@,
                Ok::<(), ErrorSpec>(()),
            ));
        }
        let body = render_group_lines(&group.items);
        let ghost pre = self@;
        let mut k: usize = 0;
        while k < self.sections.len()
            invariant
                self@ == pre,
                self.wf(),
                body.deep_view() == render_lines(items),
                g == group@,
                items == g.items,
                s0 == old(self)@,
                vd == visiting.deep_view(),
                cvd == vd.push(g.name),
                cat_get(igs@, g.name) == Option::Some(g),
                !(sec_contains(s0, g.name) && !force),
                !vd.contains(g.name),
                apply_items_spec(s0, igs@, items, force, cvd) == (pre, Ok::<(), ErrorSpec>(())),
                k <= self@.len(),
                forall|t: int| 0 <= t < k ==> self@[t].name != g.name,
            decreases self@.len() - k,
        {
            if str_eq(self.sections[k].name.as_str(), group.name.as_str()) {
                proof {
                    lemma_sec_index_of_at(self@, g.name, k as int);
                }
                self.sections[k] = Section { name: group.name.clone(), lines: body };
                proof {
                    assert(self@ =~= upsert_section(pre, g.name, render_lines(g.items)));
                    assert(forall|t: int|
                        0 <= t < self@.len() ==> #[trigger] self@[t].name == pre[t].name);
                    assert(secs_unique(self@));
                }
                return Ok(());
            }
            k += 1;
        }
        proof {
            lemma_sec_index_of_at(self@, g.name, self@.len() as int);
        }
        self.sections.push(Section { name: group.name.clone(), lines: body });
        proof {
            assert(self@ =~= upsert_section(pre, g.name, render_lines(g.items)));
            assert(secs_unique(self@));
        }
        Ok(())
    }
}

/// How one change transforms the store.
pub open spec fn apply_change_spec(secs: Seq<SectionSpec>, cat: Seq<GroupSpec>, c: ChangeSpec) -> (
    Seq<SectionSpec>,
    Result<(), ErrorSpec>,
) {
    match c {
        ChangeSpec::AddG(name) => if sec_contains(secs, name) {
            (secs, Err(ErrorSpec::GroupAlreadyExists(name)))
        } else {
            apply_group_spec(secs, cat, name, false, Seq::empty())
        },
        ChangeSpec::AddGF(name) => apply_group_spec(secs, cat, name, true, Seq::empty()),
        ChangeSpec::AddI(p) => (add_item_spec(secs, p), Ok(())),
        ChangeSpec::RemoveG(name) => if sec_contains(secs, name) {
            (remove_section(secs, name), Ok(()))
        } else {
            (secs, Err(ErrorSpec::GroupNotFound(name)))
        },
        ChangeSpec::RemoveI(p) => (remove_item_spec(secs, p), Ok(())),
    }
}

/// Applies the changes in input order, stopping at the first error; the
/// store keeps the mutations made before the failing change.
pub open spec fn apply_changes_spec(
    secs: Seq<SectionSpec>,
    cat: Seq<GroupSpec>,
    changes: Seq<ChangeSpec>,
) -> (Seq<SectionSpec>, Result<(), ErrorSpec>)
    decreases changes.len(),
{
    if changes.len() == 0 {
        (secs, Ok(()))
    } else {
        let r = apply_change_spec(secs, cat, changes[0]);
        match r.1 {
            Err(e) => r,
            Ok(_) => apply_changes_spec(r.0, cat, changes.drop_first()),
        }
    }
}

impl GitIgnore {
    /// Applies every change in input order: group adds (plain and forced),
    /// loose-item adds, group removals and pattern erasures. The first error
    /// aborts the run; a plain add of an existing group is such an error.
    pub fn apply_changes(&mut self, changes: &Vec<Change>, igs: &IgnoreGroups) -> (r: Result<
        (),
        Error,
    >)
        requires
            old(self).wf(),
            igs.wf(),
        ensures
            final(self).wf(),
            final(self)@ == apply_changes_spec(old(self)@, igs@, changes.deep_view()).0,
            res_spec(r) == apply_changes_spec(old(self)@, igs@, changes.deep_view()).1,
    {
        let ghost s0 = self@;
        let ghost cdv = changes.deep_view();
        let mut i: usize = 0;
        proof {
            assert(cdv.skip(0) =~= cdv);
        }
        while i < changes.len()
            invariant
                self.wf(),
                igs.wf(),
                s0 == old(self)@,
                cdv == changes.deep_view(),
                cdv.len() == changes@.len(),
                i <= changes@.len(),
                apply_changes_spec(self@, igs@, cdv.skip(i as int)) == apply_changes_spec(
                    s0,
                    igs@,
                    cdv,
                ),
            decreases changes@.len() - i,
        {
            let ghost rest = cdv.skip(i as int);
            let ghost pre = self@;
            proof {
                assert(rest[0] == cdv[i as int]);
                assert(cdv[i as int] == changes@[i as int]@);
                assert(rest.drop_first() =~= cdv.skip(i as int + 1));
            }
            match &changes[i] {
                Change::AddG(name) => {
                    if self.has_group(name.as_str()) {
                        return Err(Error::GroupAlreadyExists(name.clone()));
                    }
                    match igs.get(name.as_str()) {
                        Err(e) => {
                            return Err(e);
                        },
                        Ok(g) => {
                            match self.add_group(g, false, igs) {
                                Err(e) => {
                                    return Err(e);
                                },
                                Ok(_) => {},
                            }
                        },
                    }
                },
                Change::AddGF(name) => {
                    match igs.get(name.as_str()) {
                        Err(e) => {
                            return Err(e);
                        },
                        Ok(g) => {
                            match self.add_group(g, true, igs) {
                                Err(e) => {
                                    return Err(e);
                                },
                                Ok(_) => {},
                            }
                        },
                    }
                },
                Change::AddI(p) => {
                    self.add_item(p.as_str());
                },
                Change::RemoveG(name) => {
                    match self.remove_group(name.as_str()) {
                        Err(e) => {
                            return Err(e);
                        },
                        Ok(_) => {},
                    }
                },
                Change::RemoveI(p) => {
                    self.remove_item(p.as_str());
                },
            }
            i += 1;
        }
        proof {
            assert(cdv.skip(cdv.len() as int) =~= Seq::<ChangeSpec>::empty());
        }
        Ok(())
    }
}

/// The opening half of a section header line.
pub open spec fn title_open() -> Seq<char> {
    "#==========================================["@
}

/// The closing half of a section header line.
pub open spec fn title_close() -> Seq<char> {
    "]==========================================#"@
}

/// The header line framing a section: the name, padded by one space on each
/// side, between the two fixed markers.
pub open spec fn header_line(name: Seq<char>) -> Seq<char> {
    title_open() + " "@ + name + " "@ + title_close()
}

/// Body lines re-emitted, each followed by one line feed.
pub open spec fn lines_text(lines: Seq<Seq<char>>) -> Seq<char>
    decreases lines.len(),
{
    if lines.len() == 0 {
        Seq::empty()
    } else {
        lines[0] + "\n"@ + lines_text(lines.drop_first())
    }
}

/// One serialized section: header line, body lines, one blank separator.
pub open spec fn section_text(sec: SectionSpec) -> Seq<char> {
    header_line(sec.name) + "\n"@ + lines_text(sec.lines) + "\n"@
}

/// The whole serialized file: every section in store order.
pub open spec fn serialize_spec(secs: Seq<SectionSpec>) -> Seq<char>
    decreases secs.len(),
{
    if secs.len() == 0 {
        Seq::empty()
    } else {
        section_text(secs[0]) + serialize_spec(secs.drop_first())
    }
}

impl GitIgnore {
    /// Serializes the store into the framed text format, sections in
    /// insertion order.
    pub fn serialize(&self) -> (r: String)
        ensures
            r@ == serialize_spec(self@),
    {
        let mut out = String::new();
        let mut i: usize = 0;
        proof {
            assert(self@.skip(0) =~= self@);
            assert(out@ + serialize_spec(self@) =~= serialize_spec(self@));
        }
        while i < self.sections.len()
            invariant
                i <= self@.len(),
                serialize_spec(self@) == out@ + serialize_spec(self@.skip(i as int)),
            decreases self@.len() - i,
        {
            let ghost rest = self@.skip(i as int);
            let ghost sec = self@[i as int];
            let ghost start = out@;
            proof {
                assert(rest[0] == sec);
                assert(rest.drop_first() =~= self@.skip(i as int + 1));
            }
            let s = &self.sections[i];
            out.append("#==========================================[");
            out.append(" ");
            out.append(s.name.as_str());
            out.append(" ");
            out.append("]==========================================#");
            out.append("\n");
            proof {
                assert(out@ =~= start + (header_line(sec.name) + "\n"@));
            }
            let ghost mid = out@;
            let mut j: usize = 0;
            proof {
                assert(sec.lines.skip(0) =~= sec.lines);
                assert(mid + lines_text(sec.lines) =~= mid + lines_text(sec.lines.skip(0)));
            }
            while j < s.lines.len()
                invariant
                    i < self@.len(),
                    sec == self@[i as int],
                    s@ == sec,
                    j <= sec.lines.len(),
                    mid + lines_text(sec.lines) == out@ + lines_text(sec.lines.skip(j as int)),
                decreases sec.lines.len() - j,
            {
                let ghost lrest = sec.lines.skip(j as int);
                let ghost before = out@;
                proof {
                    assert(lrest[0] == sec.lines[j as int]);
                    assert(lrest.drop_first() =~= sec.lines.skip(j as int + 1));
                }
                out.append(s.lines[j].as_str());
                out.append("\n");
                proof {
                    assert(before + (sec.lines[j as int] + "\n"@ + lines_text(
                        sec.lines.skip(j as int + 1),
                    )) =~= out@ + lines_text(sec.lines.skip(j as int + 1)));
                }
                j += 1;
            }
            proof {
                assert(sec.lines.skip(sec.lines.len() as int) =~= Seq::<Seq<char>>::empty());
                assert(out@ + lines_text(Seq::<Seq<char>>::empty()) =~= out@);
            }
            out.append("\n");
            proof {
                assert(out@ =~= start + section_text(sec));
                assert(start + (section_text(sec) + serialize_spec(self@.skip(i as int + 1)))
                    =~= out@ + serialize_spec(self@.skip(i as int + 1)));
            }
            i += 1;
        }
        proof {
            assert(self@.skip(self@.len() as int) =~= Seq::<SectionSpec>::empty());
            assert(out@ + serialize_spec(Seq::<SectionSpec>::empty()) =~= out@);
        }
        out
    }
}

/// A line that frames a section: both markers present, and long enough that
/// they do not overlap.
pub open spec fn is_header_line(l: Seq<char>) -> bool {
    has_prefix(l, title_open()) && has_suffix(l, title_close()) && l.len() >= title_open().len()
        + title_close().len()
}

/// The trimmed text strictly between the markers of a header line.
pub open spec fn header_name(l: Seq<char>) -> Seq<char> {
    trim_spec(l.subrange(title_open().len() as int, l.len() - title_close().len()))
}

/// Closing a section on reload: the single blank line the serializer emits
/// as a separator is dropped from the end of the section's body.
pub open spec fn close_cur(secs: Seq<SectionSpec>, cur: Option<int>) -> Seq<SectionSpec> {
    match cur {
        Option::None => secs,
        Option::Some(k) => if 0 <= k < secs.len() && secs[k].lines.len() > 0 && secs[k].lines.last()
            == Seq::<char>::empty() {
            secs.update(k, SectionSpec { name: secs[k].name, lines: secs[k].lines.drop_last() })
        } else {
            secs
        },
    }
}

/// Runs the reader from line `i`: headers open (or reset) a section, other
/// lines belong to the section opened last, and a line before any header is
/// a corrupt file.
pub open spec fn load_rec(
    lines: Seq<Seq<char>>,
    i: int,
    secs: Seq<SectionSpec>,
    cur: Option<int>,
) -> Result<Seq<SectionSpec>, ErrorSpec>
    decreases lines.len() - i,
{
    if i < 0 || i >= lines.len() {
        Ok(close_cur(secs, cur))
    } else {
        let l = lines[i];
        if is_header_line(l) {
            let s2 = close_cur(secs, cur);
            let name = header_name(l);
            let k = sec_index_of(s2, name);
            if k < s2.len() {
                load_rec(
                    lines,
                    i + 1,
                    s2.update(k, SectionSpec { name: s2[k].name, lines: Seq::empty() }),
                    Option::Some(k),
                )
            } else {
                load_rec(
                    lines,
                    i + 1,
                    s2.push(SectionSpec { name, lines: Seq::empty() }),
                    Option::Some(s2.len() as int),
                )
            }
        } else {
            match cur {
                Option::None => Err(ErrorSpec::CorruptFile),
                Option::Some(k) => if 0 <= k < secs.len() {
                    load_rec(
                        lines,
                        i + 1,
                        secs.update(
                            k,
                            SectionSpec { name: secs[k].name, lines: secs[k].lines.push(l) },
                        ),
                        cur,
                    )
                } else {
                    load_rec(lines, i + 1, secs, cur)
                },
            }
        }
    }
}

/// What reading a persisted ignore-file text yields.
pub open spec fn load_spec(text: Seq<char>) -> Result<Seq<SectionSpec>, ErrorSpec> {
    load_rec(split_lines_spec(text), 0, Seq::empty(), Option::None)
}

impl GitIgnore {
    /// Reads a persisted ignore-file text into a store.
    pub fn load(text: &str) -> (r: Result<GitIgnore, Error>)
        ensures
            match r {
                Ok(g) => load_spec(text@) == Ok::<Seq<SectionSpec>, ErrorSpec>(g@) && g.wf(),
                Err(e) => load_spec(text@) == Err::<Seq<SectionSpec>, ErrorSpec>(e@),
            },
    {
        let lines = split_lines_str(text);
        let ghost dv = lines.deep_view();
        let mut sections: Vec<Section> = Vec::new();
        let mut has_cur: bool = false;
        let mut cur: usize = 0;
        let mut i: usize = 0;
        proof {
            assert(sections.deep_view() =~= Seq::<SectionSpec>::empty());
        }
        while i < lines.len()
            invariant
                dv == lines.deep_view(),
                dv == split_lines_spec(text@),
                dv.len() == lines@.len(),
                i <= lines@.len(),
                secs_unique(sections.deep_view()),
                has_cur ==> cur < sections@.len(),
                load_rec(
                    dv,
                    i as int,
                    sections.deep_view(),
                    if has_cur {
                        Option::Some(cur as int)
                    } else {
                        Option::None
                    },
                ) == load_rec(dv, 0, Seq::empty(), Option::None),
            decreases lines@.len() - i,
        {
            let ghost st_secs = sections.deep_view();
            let ghost st_cur: Option<int> = if has_cur {
                Option::Some(cur as int)
            } else {
                Option::None
            };
            let line = &lines[i];
            proof {
                assert(dv[i as int] == lines@[i as int]@);
                reveal_strlit("#==========================================[");
                reveal_strlit("]==========================================#");
            }
            let n0: usize = line.as_str().unicode_len();
            let open_len: usize = 44;
            let close_len: usize = 44;
            let is_header = str_has_prefix(
                line.as_str(),
                "#==========================================[",
            ) && str_has_suffix(line.as_str(), "]==========================================#")
                && n0 >= open_len + close_len;
            if is_header {
                // drop the blank separator the serializer leaves at the end
                // of the section being closed
                if has_cur {
                    pop_separator(&mut sections, cur);
                }
                let name = trim_str(line.as_str().substring_char(open_len, n0 - close_len));
                let ghost s2 = close_cur(st_secs, st_cur);
                let mut k: usize = 0;
                let mut found: bool = false;
                while k < sections.len() && !found
                    invariant
                        sections.deep_view() == s2,
                        k <= sections@.len(),
                        found ==> k < sections@.len() && sections.deep_view()[k as int].name
                            == name@,
                        !found ==> forall|t: int|
                            0 <= t < k ==> sections.deep_view()[t].name != name@,
                    decreases sections@.len() - k + (if found {
                        0int
                    } else {
                        1int
                    }),
                {
                    if str_eq(sections[k].name.as_str(), name.as_str()) {
                        found = true;
                    } else {
                        k += 1;
                    }
                }
                if found {
                    proof {
                        lemma_sec_index_of_at(s2, name@, k as int);
                    }
                    sections[k] = Section { name, lines: Vec::new() };
                    cur = k;
                } else {
                    proof {
                        lemma_sec_index_of_at(s2, name@, s2.len() as int);
                    }
                    cur = sections.len();
                    sections.push(Section { name, lines: Vec::new() });
                }
                has_cur = true;
                proof {
                    assert(sections.deep_view()[cur as int].lines =~= Seq::<Seq<char>>::empty());
                    if sec_index_of(s2, name@) < s2.len() {
                        assert(sections.deep_view() =~= s2.update(
                            sec_index_of(s2, name@),
                            SectionSpec {
                                name: s2[sec_index_of(s2, name@)].name,
                                lines: Seq::empty(),
                            },
                        ));
                    } else {
                        assert(sections.deep_view() =~= s2.push(
                            SectionSpec { name: name@, lines: Seq::empty() },
                        ));
                    }
                    assert(secs_unique(sections.deep_view()));
                }
            } else {
                if !has_cur {
                    return Err(Error::CorruptFile);
                }
                let ghost before = sections.deep_view();
                let sec = &mut sections[cur];
                sec.lines.push(line.clone());
                proof {
                    assert(sections.deep_view()[cur as int].lines =~= before[cur as int].lines.push(
                        line@,
                    ));
                    assert(sections.deep_view() =~= before.update(
                        cur as int,
                        SectionSpec {
                            name: before[cur as int].name,
                            lines: before[cur as int].lines.push(line@),
                        },
                    ));
                    assert(secs_unique(sections.deep_view()));
                }
            }
            i += 1;
        }
        if has_cur {
            let ghost st_secs = sections.deep_view();
            pop_separator(&mut sections, cur);
            proof {
                assert(load_rec(dv, dv.len() as int, st_secs, Option::Some(cur as int))
                    == Ok::<Seq<SectionSpec>, ErrorSpec>(close_cur(
                    st_secs,
                    Option::Some(cur as int),
                )));
            }
        }
        let g = GitIgnore { sections };
        Ok(g)
    }
}

/// Pops the single trailing blank line of the section at `k`, if present.
fn pop_separator(sections: &mut Vec<Section>, k: usize)
    requires
        k < old(sections)@.len(),
        secs_unique(old(sections).deep_view()),
    ensures
        final(sections).deep_view() == close_cur(old(sections).deep_view(), Option::Some(k as int)),
        secs_unique(final(sections).deep_view()),
{
    let ghost before = sections.deep_view();
    let n = sections[k].lines.len();
    let mut blank: bool = false;
    if n > 0 {
        blank = sections[k].lines[n - 1].as_str().unicode_len() == 0;
        proof {
            assert(before[k as int].lines[n - 1] == sections@[k as int].lines@[n - 1]@);
            if blank {
                assert(before[k as int].lines.last() =~= Seq::<char>::empty());
            }
        }
    }
    if blank {
        let sec = &mut sections[k];
        sec.lines.pop();
        proof {
            assert(sections.deep_view()[k as int].lines =~= before[k as int].lines.drop_last());
            assert(sections.deep_view() =~= close_cur(before, Option::Some(k as int)));
            assert(secs_unique(sections.deep_view()));
        }
    } else {
        proof {
            if before[k as int].lines.len() > 0 {
                assert(before[k as int].lines.last().len() > 0);
            }
            assert(sections.deep_view() =~= close_cur(before, Option::Some(k as int)));
        }
    }
}

#[via_fn]
proof fn apply_group_spec_dec(
    secs: Seq<SectionSpec>,
    cat: Seq<GroupSpec>,
    name: Seq<char>,
    force: bool,
    visiting: Seq<Seq<char>>,
) {
    if cat_get(cat, name) is Some && !(sec_contains(secs, name) && !force) && !visiting.contains(
        name,
    ) {
        crate::ignore_groups::lemma_group_index_of_props(cat, name);
        lemma_remaining_push_lt(cat, visiting, name);
    }
}

} // verus!
