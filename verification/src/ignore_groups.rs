//! The ignore-group catalog: a mapping from group name to an ordered list of
//! typed entries, parsed from a line-oriented template text.
//!
//! A line starting with `#` opens a group named by the trimmed remainder;
//! `Item(x)`, `Comment(x)` and `Dependency(x)` lines attach a trimmed entry
//! to the most recently opened group; empty lines are skipped; anything else
//! is a fatal parse error, since the template is a fixed, trusted asset.

use vstd::prelude::*;

use crate::text::contains_seq;
use crate::text::has_prefix;
use crate::text::has_suffix;
use crate::text::lemma_lex_le_total;
use crate::text::lemma_lex_le_trans;
use crate::text::lex_le;
use crate::text::lower_of;
use crate::text::split_lines_spec;
use crate::text::split_lines_str;
use crate::text::str_contains;
use crate::text::str_eq;
use crate::text::str_has_prefix;
use crate::text::str_has_suffix;
use crate::text::str_le;
use crate::text::to_lower_str;
use crate::text::trim_spec;
use crate::text::trim_str;
use crate::Error;
use crate::ErrorSpec;

verus! {

/// One catalog entry: a literal pattern, a documentation comment, or a
/// reference requiring another group's entries.
#[derive(Debug)]
pub enum IgnoreItem {
    Item(String),
    Comment(String),
    Dependency(String),
}

/// Mathematical image of `IgnoreItem`.
pub enum ItemSpec {
    Item(Seq<char>),
    Comment(Seq<char>),
    Dependency(Seq<char>),
}

impl View for IgnoreItem {
    type V = ItemSpec;

    open spec fn view(&self) -> ItemSpec {
        match self {
            IgnoreItem::Item(s) => ItemSpec::Item(s@),
            IgnoreItem::Comment(s) => ItemSpec::Comment(s@),
            IgnoreItem::Dependency(s) => ItemSpec::Dependency(s@),
        }
    }
}

impl DeepView for IgnoreItem {
    type V = ItemSpec;

    open spec fn deep_view(&self) -> ItemSpec {
        self.view()
    }
}

/// A named, ordered bundle of catalog entries.
#[derive(Debug)]
pub struct IgnoreGroup {
    pub name: String,
    pub items: Vec<IgnoreItem>,
}

/// Mathematical image of `IgnoreGroup`.
pub struct GroupSpec {
    pub name: Seq<char>,
    pub items: Seq<ItemSpec>,
}

impl View for IgnoreGroup {
    type V = GroupSpec;

    open spec fn view(&self) -> GroupSpec {
        GroupSpec { name: self.name@, items: self.items.deep_view() }
    }
}

impl DeepView for IgnoreGroup {
    type V = GroupSpec;

    open spec fn deep_view(&self) -> GroupSpec {
        self.view()
    }
}

/// The catalog: every group the template defines, in definition order.
#[derive(Debug)]
pub struct IgnoreGroups {
    groups: Vec<IgnoreGroup>,
}

impl View for IgnoreGroups {
    type V = Seq<GroupSpec>;

    closed spec fn view(&self) -> Seq<GroupSpec> {
        self.groups.deep_view()
    }
}

/// Group names are unique within a catalog.
pub open spec fn cat_unique(cat: Seq<GroupSpec>) -> bool {
    forall|i: int, j: int| 0 <= i < j < cat.len() ==> cat[i].name != cat[j].name
}

/// Position of the first group named `name`, or `cat.len()` if there is none.
pub open spec fn group_index_of(cat: Seq<GroupSpec>, name: Seq<char>) -> int
    decreases cat.len(),
{
    if cat.len() == 0 {
        0
    } else if cat[0].name == name {
        0
    } else {
        1 + group_index_of(cat.drop_first(), name)
    }
}

/// The first group named `name`, if any.
pub open spec fn cat_get(cat: Seq<GroupSpec>, name: Seq<char>) -> Option<GroupSpec> {
    let i = group_index_of(cat, name);
    if i < cat.len() {
        Option::Some(cat[i])
    } else {
        Option::None
    }
}

pub proof fn lemma_group_index_of_at(cat: Seq<GroupSpec>, name: Seq<char>, i: int)
    requires
        0 <= i <= cat.len(),
        forall|k: int| 0 <= k < i ==> cat[k].name != name,
        i < cat.len() ==> cat[i].name == name,
    ensures
        group_index_of(cat, name) == i,
    decreases i,
{
    if i > 0 {
        assert forall|k: int| 0 <= k < i - 1 implies cat.drop_first()[k].name != name by {
            assert(cat.drop_first()[k] == cat[k + 1]);
        }
        assert(i - 1 < cat.drop_first().len() ==> cat.drop_first()[i - 1].name == name);
        lemma_group_index_of_at(cat.drop_first(), name, i - 1);
    } else {
        if cat.len() == 0 {
        } else {
            assert(cat[0].name == name);
        }
    }
}

pub proof fn lemma_group_index_of_props(cat: Seq<GroupSpec>, name: Seq<char>)
    ensures
        0 <= group_index_of(cat, name) <= cat.len(),
        group_index_of(cat, name) < cat.len() ==> cat[group_index_of(cat, name)].name == name,
        forall|k: int| 0 <= k < group_index_of(cat, name) ==> cat[k].name != name,
    decreases cat.len(),
{
    if cat.len() > 0 && cat[0].name != name {
        lemma_group_index_of_props(cat.drop_first(), name);
        let i = group_index_of(cat, name);
        assert forall|k: int| 0 <= k < i implies cat[k].name != name by {
            if k > 0 {
                assert(cat.drop_first()[k - 1] == cat[k]);
            }
        }
        if i < cat.len() {
            assert(cat.drop_first()[i - 1] == cat[i]);
        }
    }
}

pub proof fn lemma_group_index_of_none(cat: Seq<GroupSpec>, name: Seq<char>)
    requires
        forall|k: int| 0 <= k < cat.len() ==> cat[k].name != name,
    ensures
        group_index_of(cat, name) == cat.len(),
{
    lemma_group_index_of_at(cat, name, cat.len() as int);
}

/// Replaces the group named `name` with a fresh empty one, or opens a new
/// group at the end when none exists yet.
pub open spec fn upsert_group(cat: Seq<GroupSpec>, name: Seq<char>) -> Seq<GroupSpec> {
    let i = group_index_of(cat, name);
    let fresh = GroupSpec { name, items: Seq::empty() };
    if i < cat.len() {
        cat.update(i, fresh)
    } else {
        cat.push(fresh)
    }
}

/// Appends `item` to the group named `name` (the catalog is unchanged when no
/// such group exists).
pub open spec fn append_to_group(cat: Seq<GroupSpec>, name: Seq<char>, item: ItemSpec) -> Seq<
    GroupSpec,
> {
    let i = group_index_of(cat, name);
    if i < cat.len() {
        cat.update(i, GroupSpec { name: cat[i].name, items: cat[i].items.push(item) })
    } else {
        cat
    }
}

/// A line of the shape `<pre>…)`, long enough to hold both delimiters.
pub open spec fn wrapped_form(line: Seq<char>, pre: Seq<char>) -> bool {
    has_prefix(line, pre) && has_suffix(line, ")"@) && line.len() >= pre.len() + ")"@.len()
}

/// The trimmed text strictly between the delimiters of a wrapped line.
pub open spec fn wrapped_middle(line: Seq<char>, pre: Seq<char>) -> Seq<char> {
    trim_spec(line.subrange(pre.len() as int, line.len() - ")"@.len()))
}

/// The parser state: the groups so far and the currently open group's name.
pub struct CatState {
    pub groups: Seq<GroupSpec>,
    pub active: Option<Seq<char>>,
}

/// How one catalog line changes the parser state.
pub open spec fn catalog_step(st: CatState, line: Seq<char>) -> Result<CatState, ErrorSpec> {
    if line.len() == 0 {
        Ok(st)
    } else if line[0] == '#' {
        let name = trim_spec(line.drop_first());
        Ok(CatState { groups: upsert_group(st.groups, name), active: Option::Some(name) })
    } else if wrapped_form(line, "Item("@) && st.active is Some {
        Ok(
            CatState {
                groups: append_to_group(
                    st.groups,
                    st.active->Some_0,
                    ItemSpec::Item(wrapped_middle(line, "Item("@)),
                ),
                active: st.active,
            },
        )
    } else if wrapped_form(line, "Comment("@) && st.active is Some {
        Ok(
            CatState {
                groups: append_to_group(
                    st.groups,
                    st.active->Some_0,
                    ItemSpec::Comment(wrapped_middle(line, "Comment("@)),
                ),
                active: st.active,
            },
        )
    } else if wrapped_form(line, "Dependency("@) && st.active is Some {
        Ok(
            CatState {
                groups: append_to_group(
                    st.groups,
                    st.active->Some_0,
                    ItemSpec::Dependency(wrapped_middle(line, "Dependency("@)),
                ),
                active: st.active,
            },
        )
    } else {
        Err(ErrorSpec::CorruptCatalog(line))
    }
}

/// Runs the catalog parser from line `i` in state `st`.
pub open spec fn parse_catalog_rec(lines: Seq<Seq<char>>, i: int, st: CatState) -> Result<
    Seq<GroupSpec>,
    ErrorSpec,
>
    decreases lines.len() - i,
{
    if i < 0 || i >= lines.len() {
        Ok(st.groups)
    } else {
        match catalog_step(st, lines[i]) {
            Ok(st2) => parse_catalog_rec(lines, i + 1, st2),
            Err(e) => Err(e),
        }
    }
}

/// What parsing a catalog text yields.
pub open spec fn parse_catalog_spec(text: Seq<char>) -> Result<Seq<GroupSpec>, ErrorSpec> {
    parse_catalog_rec(
        split_lines_spec(text),
        0,
        CatState { groups: Seq::empty(), active: Option::None },
    )
}

impl IgnoreGroups {
    /// Group names are unique.
    pub open spec fn wf(&self) -> bool {
        cat_unique(self@)
    }

    /// Parses the template text into a catalog.
    pub fn parse(text: &str) -> (r: Result<IgnoreGroups, Error>)
        ensures
            match r {
                Ok(c) => parse_catalog_spec(text@) == Ok::<Seq<GroupSpec>, ErrorSpec>(c@)
                    && c.wf(),
                Err(e) => parse_catalog_spec(text@) == Err::<Seq<GroupSpec>, ErrorSpec>(e@),
            },
    {
        let lines = split_lines_str(text);
        let ghost dv = lines.deep_view();
        let mut groups: Vec<IgnoreGroup> = Vec::new();
        let mut has_active: bool = false;
        let mut active_idx: usize = 0;
        let mut i: usize = 0;
        proof {
            assert(groups.deep_view() =~= Seq::<GroupSpec>::empty());
        }
        while i < lines.len()
            invariant
                dv == lines.deep_view(),
                dv == split_lines_spec(text@),
                dv.len() == lines@.len(),
                i <= lines@.len(),
                cat_unique(groups.deep_view()),
                has_active ==> active_idx < groups@.len(),
                parse_catalog_rec(
                    dv,
                    i as int,
                    CatState {
                        groups: groups.deep_view(),
                        active: if has_active {
                            Option::Some(groups.deep_view()[active_idx as int].name)
                        } else {
                            Option::None
                        },
                    },
                ) == parse_catalog_rec(
                    dv,
                    0,
                    CatState { groups: Seq::empty(), active: Option::None },
                ),
            decreases lines@.len() - i,
        {
            let ghost st = CatState {
                groups: groups.deep_view(),
                active: if has_active {
                    Option::Some(groups.deep_view()[active_idx as int].name)
                } else {
                    Option::None
                },
            };
            let line = &lines[i];
            proof {
                assert(dv[i as int] == lines@[i as int]@);
            }
            let n0: usize = line.as_str().unicode_len();
            if n0 == 0 {
                // blank lines neither close nor extend the open group
            } else if line.as_str().get_char(0) == '#' {
                let name = trim_str(line.as_str().substring_char(1, n0));
                proof {
                    assert(line@.subrange(1, n0 as int) =~= line@.drop_first());
                }
                let mut j: usize = 0;
                let mut found: bool = false;
                while j < groups.len() && !found
                    invariant
                        j <= groups@.len(),
                        found ==> j < groups@.len() && groups.deep_view()[j as int].name == name@,
                        !found ==> forall|k: int|
                            0 <= k < j ==> groups.deep_view()[k].name != name@,
                    decreases groups@.len() - j + (if found { 0int } else { 1int }),
                {
                    if str_eq(groups[j].name.as_str(), name.as_str()) {
                        found = true;
                    } else {
                        j += 1;
                    }
                }
                let fresh = IgnoreGroup { name, items: Vec::new() };
                let ghost old_cat = groups.deep_view();
                proof {
                    assert(fresh@.items =~= Seq::<ItemSpec>::empty());
                    assert(fresh@ == GroupSpec { name: fresh@.name, items: Seq::empty() });
                }
                if found {
                    proof {
                        lemma_group_index_of_at(old_cat, fresh@.name, j as int);
                    }
                    groups[j] = fresh;
                    active_idx = j;
                } else {
                    proof {
                        lemma_group_index_of_none(old_cat, fresh@.name);
                    }
                    active_idx = groups.len();
                    groups.push(fresh);
                }
                has_active = true;
                proof {
                    assert(groups.deep_view() =~= upsert_group(old_cat, name@));
                    assert(groups.deep_view()[active_idx as int].name == name@);
                    assert(cat_unique(groups.deep_view()));
                }
            } else {
                proof {
                    reveal_strlit("Item(");
                    reveal_strlit("Comment(");
                    reveal_strlit("Dependency(");
                    reveal_strlit(")");
                }
                let close_len: usize = 1;
                let mut handled: bool = false;
                let mut item: IgnoreItem = IgnoreItem::Item(String::new());
                if has_active && str_has_prefix(line.as_str(), "Item(") && str_has_suffix(
                    line.as_str(),
                    ")",
                ) && n0 >= 5 + close_len {
                    let mid = trim_str(line.as_str().substring_char(5, n0 - close_len));
                    item = IgnoreItem::Item(mid);
                    handled = true;
                    proof {
                        assert(wrapped_form(line@, "Item("@));
                        assert(item@ == ItemSpec::Item(wrapped_middle(line@, "Item("@)));
                    }
                } else if has_active && str_has_prefix(line.as_str(), "Comment(")
                    && str_has_suffix(line.as_str(), ")") && n0 >= 8 + close_len {
                    let mid = trim_str(line.as_str().substring_char(8, n0 - close_len));
                    item = IgnoreItem::Comment(mid);
                    handled = true;
                    proof {
                        assert(wrapped_form(line@, "Comment("@));
                        assert(item@ == ItemSpec::Comment(wrapped_middle(line@, "Comment("@)));
                    }
                } else if has_active && str_has_prefix(line.as_str(), "Dependency(")
                    && str_has_suffix(line.as_str(), ")") && n0 >= 11 + close_len {
                    let mid = trim_str(line.as_str().substring_char(11, n0 - close_len));
                    item = IgnoreItem::Dependency(mid);
                    handled = true;
                    proof {
                        assert(wrapped_form(line@, "Dependency("@));
                        assert(item@ == ItemSpec::Dependency(
                            wrapped_middle(line@, "Dependency("@),
                        ));
                    }
                }
                if !handled {
                    proof {
                        assert(catalog_step(st, line@) == Err::<CatState, ErrorSpec>(
                            ErrorSpec::CorruptCatalog(line@),
                        ));
                    }
                    return Err(Error::CorruptCatalog(line.clone()));
                }
                let ghost old_cat = groups.deep_view();
                let ghost act_name = old_cat[active_idx as int].name;
                proof {
                    lemma_group_index_of_at(old_cat, act_name, active_idx as int);
                }
                let ghost itemv = item@;
                let g = &mut groups[active_idx];
                g.items.push(item);
                proof {
                    assert(groups.deep_view()[active_idx as int].items =~= old_cat[active_idx
                        as int].items.push(itemv));
                    assert(groups.deep_view() =~= append_to_group(old_cat, act_name, itemv));
                    assert(cat_unique(groups.deep_view()));
                    assert(groups.deep_view()[active_idx as int].name == act_name);
                }
            }
            i += 1;
        }
        Ok(IgnoreGroups { groups })
    }

    /// The first group named `group`, or an unknown-group error.
    pub fn get(&self, group: &str) -> (r: Result<&IgnoreGroup, Error>)
        ensures
            match r {
                Ok(g) => cat_get(self@, group@) == Option::Some(g@) && g@.name == group@,
                Err(e) => cat_get(self@, group@) is None && e@ == ErrorSpec::UnknownGroup(
                    group@,
                ),
            },
    {
        let mut j: usize = 0;
        while j < self.groups.len()
            invariant
                j <= self@.len(),
                forall|k: int| 0 <= k < j ==> self@[k].name != group@,
            decreases self@.len() - j,
        {
            if str_eq(self.groups[j].name.as_str(), group) {
                proof {
                    lemma_group_index_of_at(self@, group@, j as int);
                }
                return Ok(&self.groups[j]);
            }
            j += 1;
        }
        proof {
            lemma_group_index_of_none(self@, group@);
        }
        Err(Error::UnknownGroup(group.to_owned()))
    }

    /// The group names that pass the filters, sorted ascending. With no
    /// filters every name passes; otherwise a name passes when its lowercase
    /// form contains the trimmed lowercase form of some filter.
    pub fn filter(&self, filters: &Vec<String>) -> (r: Vec<String>)
        ensures
            sorted_lex(r.deep_view()),
            r.deep_view().to_multiset() == filtered_names(self@, filters.deep_view()).to_multiset(),
    {
        let mut keys: Vec<String> = Vec::new();
        let mut i: usize = 0;
        proof {
            assert(keys.deep_view() + filtered_names(self@, filters.deep_view()) =~= filtered_names(
                self@,
                filters.deep_view(),
            ));
            assert(self@.skip(0) =~= self@);
        }
        while i < self.groups.len()
            invariant
                i <= self@.len(),
                filtered_names(self@, filters.deep_view()) == keys.deep_view() + filtered_names(
                    self@.skip(i as int),
                    filters.deep_view(),
                ),
            decreases self@.len() - i,
        {
            let ghost rest = self@.skip(i as int);
            let name = &self.groups[i].name;
            proof {
                assert(rest[0] == self@[i as int]);
                assert(rest.drop_first() =~= self@.skip(i as int + 1));
            }
            let mut passes: bool = filters.len() == 0;
            if !passes {
                let lname = to_lower_str(name.as_str());
                let mut k: usize = 0;
                while k < filters.len() && !passes
                    invariant
                        k <= filters@.len(),
                        lname@ == lower_of(name@),
                        name@ == self@[i as int].name,
                        i < self@.len(),
                        passes ==> name_passes(self@[i as int].name, filters.deep_view()),
                        !passes ==> forall|t: int|
                            0 <= t < k ==> !contains_seq(
                                lower_of(self@[i as int].name),
                                lower_of(trim_spec(filters.deep_view()[t])),
                            ),
                    decreases filters@.len() - k + (if passes { 0int } else { 1int }),
                {
                    let f = trim_str(filters[k].as_str());
                    let lf = to_lower_str(f.as_str());
                    if str_contains(lname.as_str(), lf.as_str()) {
                        passes = true;
                        proof {
                            assert(filters.deep_view()[k as int] == filters@[k as int]@);
                        }
                    } else {
                        k += 1;
                    }
                }
            }
            if passes {
                let ghost prev = keys.deep_view();
                keys.push(name.clone());
                proof {
                    assert(keys.deep_view() =~= prev.push(name@));
                    assert((prev + (seq![rest[0].name] + filtered_names(
                        rest.drop_first(),
                        filters.deep_view(),
                    ))) =~= (prev.push(name@) + filtered_names(
                        rest.drop_first(),
                        filters.deep_view(),
                    )));
                }
            } else {
                proof {
                    assert(filters.deep_view().len() > 0);
                    assert(!name_passes(rest[0].name, filters.deep_view()));
                }
            }
            i += 1;
        }
        proof {
            assert(self@.skip(self@.len() as int) =~= Seq::<GroupSpec>::empty());
            assert(keys.deep_view() + Seq::<Seq<char>>::empty() =~= keys.deep_view());
        }
        sort_names(keys)
    }
}

/// Ascending lexicographic order.
pub open spec fn sorted_lex(s: Seq<Seq<char>>) -> bool {
    forall|i: int, j: int| 0 <= i < j < s.len() ==> lex_le(s[i], s[j])
}

/// `name` contains, in lowercase, the trimmed lowercase form of some filter.
pub open spec fn name_passes(name: Seq<char>, filters: Seq<Seq<char>>) -> bool {
    exists|k: int|
        0 <= k < filters.len() && contains_seq(lower_of(name), lower_of(trim_spec(filters[k])))
}

/// The catalog names that pass the filters, in catalog order.
pub open spec fn filtered_names(cat: Seq<GroupSpec>, filters: Seq<Seq<char>>) -> Seq<Seq<char>>
    decreases cat.len(),
{
    if cat.len() == 0 {
        Seq::empty()
    } else {
        let rest = filtered_names(cat.drop_first(), filters);
        if filters.len() == 0 || name_passes(cat[0].name, filters) {
            seq![cat[0].name] + rest
        } else {
            rest
        }
    }
}

/// Sorts names ascending; the result holds exactly the input names.
fn sort_names(v: Vec<String>) -> (r: Vec<String>)
    ensures
        sorted_lex(r.deep_view()),
        r.deep_view().to_multiset() == v.deep_view().to_multiset(),
{
    broadcast use vstd::seq_lib::group_to_multiset_ensures;

    let mut rem = v;
    let mut out: Vec<String> = Vec::new();
    proof {
        assert(out.deep_view() =~= Seq::<Seq<char>>::empty());
        assert(out.deep_view().to_multiset().add(rem.deep_view().to_multiset())
            =~= v.deep_view().to_multiset());
    }
    while rem.len() > 0
        invariant
            sorted_lex(out.deep_view()),
            forall|a: int, b: int|
                0 <= a < out.deep_view().len() && 0 <= b < rem.deep_view().len() ==> lex_le(
                    out.deep_view()[a],
                    rem.deep_view()[b],
                ),
            out.deep_view().to_multiset().add(rem.deep_view().to_multiset()) == v
                .deep_view().to_multiset(),
        decreases rem@.len(),
    {
        let mut mi: usize = 0;
        let mut k: usize = 1;
        proof {
            lemma_lex_le_total(rem.deep_view()[0], rem.deep_view()[0]);
        }
        while k < rem.len()
            invariant
                mi < k <= rem@.len(),
                rem@.len() > 0,
                forall|t: int| 0 <= t < k ==> lex_le(rem.deep_view()[mi as int], rem.deep_view()[t]),
            decreases rem@.len() - k,
        {
            if str_le(rem[k].as_str(), rem[mi].as_str()) {
                proof {
                    let dv = rem.deep_view();
                    assert forall|t: int| 0 <= t < k + 1 implies lex_le(dv[k as int], dv[t]) by {
                        if t < k {
                            lemma_lex_le_trans(dv[k as int], dv[mi as int], dv[t]);
                        } else if t == k {
                            lemma_lex_le_total(dv[k as int], dv[k as int]);
                        }
                    }
                }
                mi = k;
            } else {
                proof {
                    lemma_lex_le_total(rem.deep_view()[k as int], rem.deep_view()[mi as int]);
                }
            }
            k += 1;
        }
        let ghost old_rem = rem.deep_view();
        let ghost old_out = out.deep_view();
        let x = rem.remove(mi);
        let ghost xv = x@;
        out.push(x);
        proof {
            old_rem.to_multiset_ensures();
            old_out.to_multiset_ensures();
            assert(out.deep_view() =~= old_out.push(xv));
            assert(rem.deep_view() =~= old_rem.remove(mi as int));
            assert(old_rem.remove(mi as int).to_multiset() =~= old_rem.to_multiset().remove(
                old_rem[mi as int],
            ));
            assert(old_out.push(xv).to_multiset() =~= old_out.to_multiset().insert(xv));
            assert(old_rem.to_multiset().contains(old_rem[mi as int]));
            assert(out.deep_view().to_multiset().add(rem.deep_view().to_multiset())
                =~= old_out.to_multiset().add(old_rem.to_multiset()));
            assert forall|b: int| 0 <= b < rem.deep_view().len() implies lex_le(
                xv,
                rem.deep_view()[b],
            ) by {
                if b < mi {
                    assert(rem.deep_view()[b] == old_rem[b]);
                } else {
                    assert(rem.deep_view()[b] == old_rem[b + 1]);
                }
            }
        }
    }
    proof {
        assert(rem.deep_view() =~= Seq::<Seq<char>>::empty());
        assert(out.deep_view().to_multiset().add(rem.deep_view().to_multiset())
            =~= out.deep_view().to_multiset());
    }
    out
}

/// The colored display form of one entry; dependencies are rendered in the
/// comment style.
pub open spec fn doc_text(item: ItemSpec) -> Seq<char> {
    match item {
        ItemSpec::Item(s) => "\u{1b}[32m"@ + "Item("@ + s + ")"@ + "\u{1b}[39m"@,
        ItemSpec::Comment(s) => "\u{1b}[33m"@ + "Comment("@ + s + ")"@ + "\u{1b}[39m"@,
        ItemSpec::Dependency(s) => "\u{1b}[36m"@ + "Comment("@ + s + ")"@ + "\u{1b}[39m"@,
    }
}

impl IgnoreItem {
    /// Renders the colored display form of this entry.
    pub fn doc(&self) -> (r: String)
        ensures
            r@ == doc_text(self@),
    {
        let mut out = String::new();
        match self {
            IgnoreItem::Item(s) => {
                out.append("\u{1b}[32m");
                out.append("Item(");
                out.append(s.as_str());
                out.append(")");
                out.append("\u{1b}[39m");
            },
            IgnoreItem::Comment(s) => {
                out.append("\u{1b}[33m");
                out.append("Comment(");
                out.append(s.as_str());
                out.append(")");
                out.append("\u{1b}[39m");
            },
            IgnoreItem::Dependency(s) => {
                out.append("\u{1b}[36m");
                out.append("Comment(");
                out.append(s.as_str());
                out.append(")");
                out.append("\u{1b}[39m");
            },
        }
        out
    }
}

} // verus!
