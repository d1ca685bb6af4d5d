//! The store's guarantees, stated and proved over the specification
//! functions that the executable contracts use.

use vstd::prelude::*;

use crate::gitignore::add_item_spec;
use crate::gitignore::append_loose;
use crate::gitignore::close_cur;
use crate::gitignore::header_line;
use crate::gitignore::header_name;
use crate::gitignore::is_header_line;
use crate::gitignore::lines_text;
use crate::gitignore::load_rec;
use crate::gitignore::load_spec;
use crate::gitignore::secs_unique;
use crate::gitignore::section_text;
use crate::gitignore::serialize_spec;
use crate::gitignore::title_close;
use crate::gitignore::title_open;
use crate::text::split_lines_spec;
use crate::text::trim_spec;
use crate::gitignore::apply_group_spec;
use crate::gitignore::apply_items_spec;
use crate::gitignore::lemma_sec_index_of_at;
use crate::gitignore::lemma_sec_index_of_props;
use crate::gitignore::remaining_count;
use crate::gitignore::render_lines;
use crate::gitignore::sec_contains;
use crate::gitignore::sec_get;
use crate::gitignore::sec_index_of;
use crate::gitignore::upsert_section;
use crate::gitignore::SectionSpec;
use crate::ignore_groups::cat_get;
use crate::ignore_groups::GroupSpec;
use crate::ignore_groups::ItemSpec;
use crate::text::trim_end_spec;
use crate::ErrorSpec;

verus! {

/// A section named `x` exists as soon as some index holds that name.
pub proof fn lemma_contains_of_witness(secs: Seq<SectionSpec>, x: Seq<char>, t: int)
    requires
        0 <= t < secs.len(),
        secs[t].name == x,
    ensures
        sec_contains(secs, x),
{
    lemma_sec_index_of_props(secs, x);
}

/// Upserting one section never removes another.
pub proof fn lemma_upsert_keeps(secs: Seq<SectionSpec>, n: Seq<char>, l: Seq<Seq<char>>, x: Seq<
    char,
>)
    requires
        sec_contains(secs, x),
    ensures
        sec_contains(upsert_section(secs, n, l), x),
{
    lemma_sec_index_of_props(secs, x);
    lemma_sec_index_of_props(secs, n);
    let i = sec_index_of(secs, x);
    let k = sec_index_of(secs, n);
    let out = upsert_section(secs, n, l);
    if k < secs.len() {
        if i == k {
            lemma_contains_of_witness(out, x, k);
        } else {
            lemma_contains_of_witness(out, x, i);
        }
    } else {
        lemma_contains_of_witness(out, x, i);
    }
}

/// After an upsert the section exists and holds exactly the new body.
pub proof fn lemma_upsert_get(secs: Seq<SectionSpec>, n: Seq<char>, l: Seq<Seq<char>>)
    ensures
        sec_contains(upsert_section(secs, n, l), n),
        sec_get(upsert_section(secs, n, l), n) == Option::Some(l),
{
    lemma_sec_index_of_props(secs, n);
    let k = sec_index_of(secs, n);
    let out = upsert_section(secs, n, l);
    if k < secs.len() {
        assert forall|t: int| 0 <= t < k implies out[t].name != n by {
            assert(out[t] == secs[t]);
        }
        lemma_sec_index_of_at(out, n, k);
    } else {
        assert forall|t: int| 0 <= t < secs.len() implies out[t].name != n by {
            assert(out[t] == secs[t]);
        }
        lemma_sec_index_of_at(out, n, secs.len() as int);
    }
}

/// Dependency expansion never removes a section: whatever was present before
/// an add is present after it, whether the add succeeds or fails.
pub proof fn lemma_group_keeps(
    secs: Seq<SectionSpec>,
    cat: Seq<GroupSpec>,
    name: Seq<char>,
    force: bool,
    visiting: Seq<Seq<char>>,
    x: Seq<char>,
)
    requires
        sec_contains(secs, x),
    ensures
        sec_contains(apply_group_spec(secs, cat, name, force, visiting).0, x),
    decreases remaining_count(cat, visiting), 0nat, 0nat,
{
    crate::ignore_groups::lemma_group_index_of_props(cat, name);
    match cat_get(cat, name) {
        Option::None => {},
        Option::Some(g) => {
            if sec_contains(secs, name) && !force {
            } else if visiting.contains(name) {
            } else {
                crate::gitignore::lemma_remaining_push_lt(cat, visiting, name);
                lemma_items_keeps(secs, cat, g.items, force, visiting.push(name), x);
                let r = apply_items_spec(secs, cat, g.items, force, visiting.push(name));
                if r.1 is Ok {
                    lemma_upsert_keeps(r.0, name, render_lines(g.items), x);
                }
            }
        },
    }
}

/// As `lemma_group_keeps`, for a run of entries.
pub proof fn lemma_items_keeps(
    secs: Seq<SectionSpec>,
    cat: Seq<GroupSpec>,
    items: Seq<ItemSpec>,
    force: bool,
    visiting: Seq<Seq<char>>,
    x: Seq<char>,
)
    requires
        sec_contains(secs, x),
    ensures
        sec_contains(apply_items_spec(secs, cat, items, force, visiting).0, x),
    decreases remaining_count(cat, visiting), 1nat, items.len(),
{
    if items.len() == 0 {
    } else {
        match items[0] {
            ItemSpec::Dependency(d) => {
                lemma_group_keeps(secs, cat, d, force, visiting, x);
                let r = apply_group_spec(secs, cat, d, force, visiting);
                if r.1 is Ok {
                    lemma_items_keeps(r.0, cat, items.drop_first(), force, visiting, x);
                }
            },
            _ => {
                lemma_items_keeps(secs, cat, items.drop_first(), force, visiting, x);
            },
        }
    }
}

/// Upserting under one name leaves every other section's body untouched.
pub proof fn lemma_upsert_get_other(
    secs: Seq<SectionSpec>,
    n: Seq<char>,
    l: Seq<Seq<char>>,
    x: Seq<char>,
)
    requires
        x != n,
    ensures
        sec_get(upsert_section(secs, n, l), x) == sec_get(secs, x),
{
    lemma_sec_index_of_props(secs, n);
    lemma_sec_index_of_props(secs, x);
    let k = sec_index_of(secs, n);
    let i = sec_index_of(secs, x);
    let out = upsert_section(secs, n, l);
    assert forall|t: int| 0 <= t < i && t < out.len() implies out[t].name != x by {
        if t < secs.len() {
            assert(out[t].name == secs[t].name);
        }
    }
    if i < secs.len() {
        assert(out[i].name == x);
        lemma_sec_index_of_at(out, x, i);
        assert(out[i].lines == secs[i].lines);
    } else {
        lemma_sec_index_of_at(out, x, out.len() as int);
    }
}

/// A plain (no-force) add never changes the body of a section that already
/// exists: combined with `lemma_add_group_renders`, a whole sequence of
/// plain adds leaves each freshly added group with its rendered body.
pub proof fn lemma_group_preserves_bodies(
    secs: Seq<SectionSpec>,
    cat: Seq<GroupSpec>,
    name: Seq<char>,
    visiting: Seq<Seq<char>>,
    x: Seq<char>,
)
    requires
        sec_contains(secs, x),
    ensures
        sec_get(apply_group_spec(secs, cat, name, false, visiting).0, x) == sec_get(secs, x),
    decreases remaining_count(cat, visiting), 0nat, 0nat,
{
    crate::ignore_groups::lemma_group_index_of_props(cat, name);
    match cat_get(cat, name) {
        Option::None => {},
        Option::Some(g) => {
            if sec_contains(secs, name) {
            } else if visiting.contains(name) {
            } else {
                crate::gitignore::lemma_remaining_push_lt(cat, visiting, name);
                lemma_items_preserve_bodies(secs, cat, g.items, visiting.push(name), x);
                lemma_items_keeps(secs, cat, g.items, false, visiting.push(name), x);
                let r = apply_items_spec(secs, cat, g.items, false, visiting.push(name));
                if r.1 is Ok {
                    lemma_upsert_get_other(r.0, name, render_lines(g.items), x);
                }
            }
        },
    }
}

/// As `lemma_group_preserves_bodies`, for a run of entries.
pub proof fn lemma_items_preserve_bodies(
    secs: Seq<SectionSpec>,
    cat: Seq<GroupSpec>,
    items: Seq<ItemSpec>,
    visiting: Seq<Seq<char>>,
    x: Seq<char>,
)
    requires
        sec_contains(secs, x),
    ensures
        sec_get(apply_items_spec(secs, cat, items, false, visiting).0, x) == sec_get(secs, x),
    decreases remaining_count(cat, visiting), 1nat, items.len(),
{
    if items.len() == 0 {
    } else {
        match items[0] {
            ItemSpec::Dependency(d) => {
                lemma_group_preserves_bodies(secs, cat, d, visiting, x);
                lemma_group_keeps(secs, cat, d, false, visiting, x);
                let r = apply_group_spec(secs, cat, d, false, visiting);
                if r.1 is Ok {
                    lemma_items_preserve_bodies(r.0, cat, items.drop_first(), visiting, x);
                }
            },
            _ => {
                lemma_items_preserve_bodies(secs, cat, items.drop_first(), visiting, x);
            },
        }
    }
}

/// A successful add leaves the group's own section present.
pub proof fn lemma_group_adds(
    secs: Seq<SectionSpec>,
    cat: Seq<GroupSpec>,
    name: Seq<char>,
    force: bool,
    visiting: Seq<Seq<char>>,
)
    requires
        apply_group_spec(secs, cat, name, force, visiting).1 is Ok,
    ensures
        sec_contains(apply_group_spec(secs, cat, name, force, visiting).0, name),
{
    match cat_get(cat, name) {
        Option::None => {},
        Option::Some(g) => {
            if sec_contains(secs, name) && !force {
            } else if visiting.contains(name) {
            } else {
                let r = apply_items_spec(secs, cat, g.items, force, visiting.push(name));
                lemma_upsert_get(r.0, name, render_lines(g.items));
            }
        },
    }
}

/// After a successful run over a group's entries, every dependency among
/// them has a section of its own.
pub proof fn lemma_items_deps(
    secs: Seq<SectionSpec>,
    cat: Seq<GroupSpec>,
    items: Seq<ItemSpec>,
    force: bool,
    visiting: Seq<Seq<char>>,
)
    requires
        apply_items_spec(secs, cat, items, force, visiting).1 is Ok,
    ensures
        forall|t: int|
            0 <= t < items.len() && items[t] is Dependency ==> sec_contains(
                apply_items_spec(secs, cat, items, force, visiting).0,
                items[t]->Dependency_0,
            ),
    decreases remaining_count(cat, visiting), 1nat, items.len(),
{
    if items.len() == 0 {
    } else {
        let out = apply_items_spec(secs, cat, items, force, visiting).0;
        match items[0] {
            ItemSpec::Dependency(d) => {
                let r = apply_group_spec(secs, cat, d, force, visiting);
                lemma_group_adds(secs, cat, d, force, visiting);
                lemma_items_deps(r.0, cat, items.drop_first(), force, visiting);
                lemma_items_keeps(r.0, cat, items.drop_first(), force, visiting, d);
                assert forall|t: int|
                    0 <= t < items.len() && items[t] is Dependency implies sec_contains(
                    out,
                    items[t]->Dependency_0,
                ) by {
                    if t > 0 {
                        assert(items.drop_first()[t - 1] == items[t]);
                    }
                }
            },
            _ => {
                lemma_items_deps(secs, cat, items.drop_first(), force, visiting);
                assert forall|t: int|
                    0 <= t < items.len() && items[t] is Dependency implies sec_contains(
                    out,
                    items[t]->Dependency_0,
                ) by {
                    assert(items.drop_first()[t - 1] == items[t]);
                }
            },
        }
    }
}

/// Adding a group that is not yet present (or adding with force) gives it a
/// section whose body is exactly the rendering of its catalog entries —
/// items verbatim, comment runs separated by one blank — and every direct
/// dependency a section of its own.
pub proof fn lemma_add_group_renders(
    secs: Seq<SectionSpec>,
    cat: Seq<GroupSpec>,
    name: Seq<char>,
    force: bool,
)
    requires
        apply_group_spec(secs, cat, name, force, Seq::empty()).1 is Ok,
        !(sec_contains(secs, name) && !force),
    ensures
        ({
            let out = apply_group_spec(secs, cat, name, force, Seq::empty()).0;
            &&& cat_get(cat, name) is Some
            &&& sec_get(out, name) == Option::Some(
                render_lines(cat_get(cat, name)->Some_0.items),
            )
            &&& forall|t: int|
                0 <= t < cat_get(cat, name)->Some_0.items.len() && cat_get(
                    cat,
                    name,
                )->Some_0.items[t] is Dependency ==> sec_contains(
                    out,
                    cat_get(cat, name)->Some_0.items[t]->Dependency_0,
                )
        }),
{
    let g = cat_get(cat, name)->Some_0;
    let visiting = Seq::<Seq<char>>::empty();
    assert(!visiting.contains(name));
    let r = apply_items_spec(secs, cat, g.items, force, visiting.push(name));
    lemma_upsert_get(r.0, name, render_lines(g.items));
    lemma_items_deps(secs, cat, g.items, force, visiting.push(name));
    let out = apply_group_spec(secs, cat, name, force, visiting).0;
    assert forall|t: int|
        0 <= t < g.items.len() && g.items[t] is Dependency implies sec_contains(
        out,
        g.items[t]->Dependency_0,
    ) by {
        lemma_upsert_keeps(r.0, name, render_lines(g.items), g.items[t]->Dependency_0);
    }
}

/// Adding a group whose section already exists, without force, changes
/// nothing and succeeds.
pub proof fn lemma_add_existing_is_noop(
    secs: Seq<SectionSpec>,
    cat: Seq<GroupSpec>,
    name: Seq<char>,
)
    requires
        sec_contains(secs, name),
        cat_get(cat, name) is Some,
    ensures
        apply_group_spec(secs, cat, name, false, Seq::empty()) == (secs, Ok::<(), ErrorSpec>(())),
{
}

/// A mutual dependency between two groups, neither present yet, is reported
/// as a dependency cycle (on the group the expansion started from) instead
/// of recursing without bound.
pub proof fn lemma_two_group_cycle(
    secs: Seq<SectionSpec>,
    cat: Seq<GroupSpec>,
    a: Seq<char>,
    b: Seq<char>,
    force: bool,
)
    requires
        a != b,
        cat_get(cat, a) == Option::Some(
            GroupSpec { name: a, items: seq![ItemSpec::Dependency(b)] },
        ),
        cat_get(cat, b) == Option::Some(
            GroupSpec { name: b, items: seq![ItemSpec::Dependency(a)] },
        ),
        !sec_contains(secs, a),
        !sec_contains(secs, b),
    ensures
        apply_group_spec(secs, cat, a, force, Seq::empty()).1 == Err::<(), ErrorSpec>(
            ErrorSpec::DependencyCycle(a),
        ),
{
    let v0 = Seq::<Seq<char>>::empty();
    let v1 = v0.push(a);
    let v2 = v1.push(b);
    assert(!v0.contains(a));
    assert(!v1.contains(b)) by {
        assert(forall|t: int| 0 <= t < v1.len() ==> v1[t] == a);
    }
    assert(v2.contains(a)) by {
        assert(v2[0] == a);
    }
    let ia = seq![ItemSpec::Dependency(b)];
    let ib = seq![ItemSpec::Dependency(a)];
    assert(ia.drop_first() =~= Seq::<ItemSpec>::empty());
    assert(ib.drop_first() =~= Seq::<ItemSpec>::empty());
    let inner = apply_group_spec(secs, cat, a, force, v2);
    assert(inner == (secs, Err::<(), ErrorSpec>(ErrorSpec::DependencyCycle(a))));
    let items_b = apply_items_spec(secs, cat, ib, force, v2);
    assert(items_b == (secs, Err::<(), ErrorSpec>(ErrorSpec::DependencyCycle(a))));
    let group_b = apply_group_spec(secs, cat, b, force, v1);
    assert(group_b == (secs, Err::<(), ErrorSpec>(ErrorSpec::DependencyCycle(a))));
    let items_a = apply_items_spec(secs, cat, ia, force, v1);
    assert(items_a == (secs, Err::<(), ErrorSpec>(ErrorSpec::DependencyCycle(a))));
}

/// Counts the stored lines that, with trailing whitespace dropped, equal `p`.
pub open spec fn count_in_lines(lines: Seq<Seq<char>>, p: Seq<char>) -> nat
    decreases lines.len(),
{
    if lines.len() == 0 {
        0
    } else {
        (if trim_end_spec(lines[0]) == p {
            1nat
        } else {
            0nat
        }) + count_in_lines(lines.drop_first(), p)
    }
}

/// Counts the matching lines over all sections.
pub open spec fn count_in_secs(secs: Seq<SectionSpec>, p: Seq<char>) -> nat
    decreases secs.len(),
{
    if secs.len() == 0 {
        0
    } else {
        count_in_lines(secs[0].lines, p) + count_in_secs(secs.drop_first(), p)
    }
}

pub proof fn lemma_count_lines_zero(lines: Seq<Seq<char>>, p: Seq<char>)
    requires
        forall|j: int| 0 <= j < lines.len() ==> trim_end_spec(lines[j]) != p,
    ensures
        count_in_lines(lines, p) == 0,
    decreases lines.len(),
{
    if lines.len() > 0 {
        assert forall|j: int| 0 <= j < lines.drop_first().len() implies trim_end_spec(
            lines.drop_first()[j],
        ) != p by {
            assert(lines.drop_first()[j] == lines[j + 1]);
        }
        lemma_count_lines_zero(lines.drop_first(), p);
    }
}

pub proof fn lemma_count_lines_push(lines: Seq<Seq<char>>, l: Seq<char>, p: Seq<char>)
    ensures
        count_in_lines(lines.push(l), p) == count_in_lines(lines, p) + (if trim_end_spec(l) == p {
            1nat
        } else {
            0nat
        }),
    decreases lines.len(),
{
    if lines.len() == 0 {
        assert(lines.push(l)[0] == l);
        assert(lines.push(l).drop_first() =~= Seq::<Seq<char>>::empty());
        assert(count_in_lines(lines.push(l), p) == (if trim_end_spec(l) == p {
            1nat
        } else {
            0nat
        }) + count_in_lines(Seq::<Seq<char>>::empty(), p));
    } else {
        assert(lines.push(l)[0] == lines[0]);
        assert(lines.push(l).drop_first() =~= lines.drop_first().push(l));
        lemma_count_lines_push(lines.drop_first(), l, p);
        assert(count_in_lines(lines.push(l), p) == (if trim_end_spec(lines[0]) == p {
            1nat
        } else {
            0nat
        }) + count_in_lines(lines.drop_first().push(l), p));
    }
}

pub proof fn lemma_count_secs_zero(secs: Seq<SectionSpec>, p: Seq<char>)
    requires
        !crate::gitignore::sec_has_line(secs, p),
    ensures
        count_in_secs(secs, p) == 0,
    decreases secs.len(),
{
    if secs.len() > 0 {
        assert forall|j: int| 0 <= j < secs[0].lines.len() implies trim_end_spec(
            secs[0].lines[j],
        ) != p by {
            if trim_end_spec(secs[0].lines[j]) == p {
                assert(crate::gitignore::sec_has_line(secs, p));
            }
        }
        lemma_count_lines_zero(secs[0].lines, p);
        assert(!crate::gitignore::sec_has_line(secs.drop_first(), p)) by {
            if crate::gitignore::sec_has_line(secs.drop_first(), p) {
                let (i, j) = choose|i: int, j: int|
                    0 <= i < secs.drop_first().len() && 0 <= j < secs.drop_first()[i].lines.len()
                        && trim_end_spec(#[trigger] secs.drop_first()[i].lines[j]) == p;
                assert(secs[i + 1] == secs.drop_first()[i]);
                assert(crate::gitignore::sec_has_line(secs, p));
            }
        }
        lemma_count_secs_zero(secs.drop_first(), p);
    }
}

pub proof fn lemma_count_secs_update(secs: Seq<SectionSpec>, k: int, s: SectionSpec, p: Seq<char>)
    requires
        0 <= k < secs.len(),
    ensures
        count_in_secs(secs.update(k, s), p) + count_in_lines(secs[k].lines, p) == count_in_secs(
            secs,
            p,
        ) + count_in_lines(s.lines, p),
    decreases secs.len(),
{
    if k == 0 {
        assert(secs.update(0, s)[0] == s);
        assert(secs.update(0, s).drop_first() =~= secs.drop_first());
    } else {
        assert(secs.update(k, s)[0] == secs[0]);
        assert(secs.update(k, s).drop_first() =~= secs.drop_first().update(k - 1, s));
        assert(secs.drop_first()[k - 1] == secs[k]);
        lemma_count_secs_update(secs.drop_first(), k - 1, s, p);
    }
}

pub proof fn lemma_count_secs_push(secs: Seq<SectionSpec>, s: SectionSpec, p: Seq<char>)
    ensures
        count_in_secs(secs.push(s), p) == count_in_secs(secs, p) + count_in_lines(s.lines, p),
    decreases secs.len(),
{
    if secs.len() == 0 {
        assert(secs.push(s)[0] == s);
        assert(secs.push(s).drop_first() =~= Seq::<SectionSpec>::empty());
        assert(count_in_secs(secs.push(s), p) == count_in_lines(s.lines, p) + count_in_secs(
            Seq::<SectionSpec>::empty(),
            p,
        ));
    } else {
        assert(secs.push(s)[0] == secs[0]);
        assert(secs.push(s).drop_first() =~= secs.drop_first().push(s));
        lemma_count_secs_push(secs.drop_first(), s, p);
        assert(count_in_secs(secs.push(s), p) == count_in_lines(secs[0].lines, p) + count_in_secs(
            secs.drop_first().push(s),
            p,
        ));
    }
}

/// Adding a loose pattern that no stored line equals yet gives it exactly
/// one occurrence; the pattern must carry no trailing whitespace and not be
/// empty.
pub proof fn lemma_add_item_once(secs: Seq<SectionSpec>, p: Seq<char>)
    requires
        trim_end_spec(p) == p,
        p.len() > 0,
        !crate::gitignore::sec_has_line(secs, p),
    ensures
        count_in_secs(add_item_spec(secs, p), p) == 1,
        crate::gitignore::sec_has_line(add_item_spec(secs, p), p),
{
    lemma_count_secs_zero(secs, p);
    lemma_sec_index_of_props(secs, "_"@);
    let k = sec_index_of(secs, "_"@);
    let out = append_loose(secs, p);
    if k < secs.len() {
        let s2 = SectionSpec { name: secs[k].name, lines: secs[k].lines.push(p) };
        lemma_count_lines_push(secs[k].lines, p, p);
        lemma_count_secs_update(secs, k, s2, p);
        assert(s2.lines[s2.lines.len() - 1] == p);
        assert(crate::gitignore::sec_has_line(out, p)) by {
            assert(out[k].lines[out[k].lines.len() - 1] == p);
        }
    } else {
        let s2 = SectionSpec { name: "_"@, lines: seq![Seq::<char>::empty(), p] };
        lemma_count_secs_push(secs, s2, p);
        assert(s2.lines.drop_first() =~= seq![p]);
        assert(seq![p].drop_first() =~= Seq::<Seq<char>>::empty());
        assert(trim_end_spec(Seq::<char>::empty()) != p);
        assert(seq![p][0] == p);
        assert(s2.lines[0] =~= Seq::<char>::empty());
        assert(count_in_lines(seq![p], p) == 1nat + count_in_lines(Seq::<Seq<char>>::empty(), p));
        assert(count_in_lines(s2.lines, p) == 0nat + count_in_lines(seq![p], p));
        assert(count_in_lines(s2.lines, p) == 1);
        assert(crate::gitignore::sec_has_line(out, p)) by {
            assert(out[secs.len() as int].lines[1] == p);
        }
    }
}

/// A body line survives framing: it holds no line break and does not itself
/// look like a section header.
pub open spec fn line_ok(l: Seq<char>) -> bool {
    !l.contains('\n') && !l.contains('\r') && !is_header_line(l)
}

/// A section name survives framing: it is its own trim and holds no line
/// break.
pub open spec fn name_ok(n: Seq<char>) -> bool {
    trim_spec(n) == n && !n.contains('\n') && !n.contains('\r')
}

/// A store whose serialized form reads back exactly: unique names, every
/// name and every line framing-safe.
pub open spec fn store_ok(secs: Seq<SectionSpec>) -> bool {
    &&& secs_unique(secs)
    &&& forall|i: int| 0 <= i < secs.len() ==> name_ok(#[trigger] secs[i].name)
    &&& forall|i: int, j: int|
        0 <= i < secs.len() && 0 <= j < secs[i].lines.len() ==> line_ok(
            #[trigger] secs[i].lines[j],
        )
}

/// The marker halves hold no line break or carriage return.
proof fn lemma_markers()
    ensures
        title_open().len() == 44,
        title_close().len() == 44,
        forall|j: int|
            0 <= j < title_open().len() ==> #[trigger] title_open()[j] != '\n'
                && title_open()[j] != '\r',
        forall|j: int|
            0 <= j < title_close().len() ==> #[trigger] title_close()[j] != '\n'
                && title_close()[j] != '\r',
        title_close().last() == '#',
{
    reveal_strlit("#==========================================[");
    reveal_strlit("]==========================================#");
}

/// A framed header line is recognized as one, yields its name back, and is
/// safe to emit as a single line.
proof fn lemma_header_roundtrip(name: Seq<char>)
    requires
        name_ok(name),
    ensures
        is_header_line(header_line(name)),
        header_name(header_line(name)) == name,
        forall|j: int|
            0 <= j < header_line(name).len() ==> #[trigger] header_line(name)[j] != '\n',
        header_line(name).len() == 0 || header_line(name).last() != '\r',
{
    reveal_strlit(" ");
    lemma_markers();
    let h = header_line(name);
    assert(h.len() == 44 + 1 + name.len() + 1 + 44);
    assert(h.take(44) =~= title_open());
    assert(h.skip(h.len() - 44) =~= title_close());
    assert(h.subrange(44, h.len() - 44) =~= " "@ + name + " "@);
    crate::text::lemma_trim_padded(name);
    assert forall|j: int| 0 <= j < h.len() implies #[trigger] h[j] != '\n' by {
        if j < 44 {
            assert(h[j] == title_open()[j]);
        } else if j == 44 {
            assert(h[j] == ' ');
        } else if j < 45 + name.len() {
            assert(h[j] == name[j - 45]);
            if name[j - 45] == '\n' {
                assert(name.contains('\n'));
            }
        } else if j == 45 + name.len() {
            assert(h[j] == ' ');
        } else {
            assert(h[j] == title_close()[j - 46 - name.len()]);
        }
    }
    assert(h.last() == title_close().last());
}

/// The lines a serialized store splits into: for each section its header,
/// its body lines, and one blank separator.
pub open spec fn chunk_lines(secs: Seq<SectionSpec>) -> Seq<Seq<char>>
    decreases secs.len(),
{
    if secs.len() == 0 {
        Seq::empty()
    } else {
        (seq![header_line(secs[0].name)] + secs[0].lines + seq![Seq::<char>::empty()])
            + chunk_lines(secs.drop_first())
    }
}

/// Re-emitted body lines followed by the separator split back into the lines
/// plus one blank.
proof fn lemma_lines_split(lines: Seq<Seq<char>>)
    requires
        forall|j: int| 0 <= j < lines.len() ==> line_ok(#[trigger] lines[j]),
    ensures
        split_lines_spec(lines_text(lines) + "\n"@) == lines + seq![Seq::<char>::empty()],
    decreases lines.len(),
{
    if lines.len() == 0 {
        crate::text::lemma_split_single(Seq::<char>::empty());
        assert(lines_text(lines) + "\n"@ =~= Seq::<char>::empty() + "\n"@);
        assert(lines + seq![Seq::<char>::empty()] =~= seq![Seq::<char>::empty()]);
    } else {
        reveal_strlit("\n");
        let l0 = lines[0];
        let a = l0 + "\n"@;
        let t = lines_text(lines.drop_first()) + "\n"@;
        assert(lines_text(lines) + "\n"@ =~= a + t);
        assert(a.last() == '\n');
        assert forall|j: int| 0 <= j < l0.len() implies l0[j] != '\n' by {
            if l0[j] == '\n' {
                assert(l0.contains('\n'));
            }
        }
        if l0.len() > 0 && l0.last() == '\r' {
            assert(l0.contains('\r'));
        }
        crate::text::lemma_split_append(a, t);
        crate::text::lemma_split_single(l0);
        assert forall|j: int| 0 <= j < lines.drop_first().len() implies line_ok(
            #[trigger] lines.drop_first()[j],
        ) by {
            assert(lines.drop_first()[j] == lines[j + 1]);
        }
        lemma_lines_split(lines.drop_first());
        assert(seq![l0] + (lines.drop_first() + seq![Seq::<char>::empty()]) =~= lines
            + seq![Seq::<char>::empty()]);
    }
}

/// A serialized store splits into exactly its chunk lines.
proof fn lemma_serialize_split(secs: Seq<SectionSpec>)
    requires
        store_ok(secs),
    ensures
        split_lines_spec(serialize_spec(secs)) == chunk_lines(secs),
    decreases secs.len(),
{
    if secs.len() == 0 {
        assert(split_lines_spec(serialize_spec(secs)) =~= Seq::<Seq<char>>::empty());
    } else {
        reveal_strlit("\n");
        let sec = secs[0];
        let hdr = header_line(sec.name) + "\n"@;
        let body = lines_text(sec.lines) + "\n"@;
        lemma_header_roundtrip(sec.name);
        assert(section_text(sec) =~= hdr + body);
        assert(serialize_spec(secs) =~= (hdr + body) + serialize_spec(secs.drop_first()));
        assert(hdr.last() == '\n');
        assert((hdr + body).len() > 0);
        assert((hdr + body).last() == '\n') by {
            assert((hdr + body).last() == body.last());
        }
        crate::text::lemma_split_append(hdr + body, serialize_spec(secs.drop_first()));
        crate::text::lemma_split_append(hdr, body);
        crate::text::lemma_split_single(header_line(sec.name));
        lemma_lines_split(sec.lines);
        assert forall|i: int, j: int|
            0 <= i < secs.drop_first().len() && 0 <= j
                < secs.drop_first()[i].lines.len() implies line_ok(
            #[trigger] secs.drop_first()[i].lines[j],
        ) by {
            assert(secs.drop_first()[i] == secs[i + 1]);
        }
        assert forall|i: int| 0 <= i < secs.drop_first().len() implies name_ok(
            #[trigger] secs.drop_first()[i].name,
        ) by {
            assert(secs.drop_first()[i] == secs[i + 1]);
        }
        lemma_serialize_split(secs.drop_first());
        assert((seq![header_line(sec.name)] + (sec.lines + seq![Seq::<char>::empty()]))
            + chunk_lines(secs.drop_first()) =~= chunk_lines(secs));
    }
}

/// Reading a run of plain body lines appends them to the open section.
proof fn lemma_load_appends(
    all: Seq<Seq<char>>,
    i: int,
    secs: Seq<SectionSpec>,
    k: int,
    rest: Seq<Seq<char>>,
)
    requires
        0 <= i,
        i + rest.len() <= all.len(),
        0 <= k < secs.len(),
        forall|u: int|
            0 <= u < rest.len() ==> all[i + u] == #[trigger] rest[u] && !is_header_line(rest[u]),
    ensures
        load_rec(all, i, secs, Option::Some(k)) == load_rec(
            all,
            i + rest.len(),
            secs.update(k, SectionSpec { name: secs[k].name, lines: secs[k].lines + rest }),
            Option::Some(k),
        ),
    decreases rest.len(),
{
    if rest.len() == 0 {
        assert(secs[k].lines + rest =~= secs[k].lines);
        assert(SectionSpec { name: secs[k].name, lines: secs[k].lines + rest } == secs[k]);
        assert(secs.update(k, secs[k]) =~= secs);
    } else {
        assert(all[i] == rest[0]);
        let secs2 = secs.update(
            k,
            SectionSpec { name: secs[k].name, lines: secs[k].lines.push(rest[0]) },
        );
        assert forall|u: int| 0 <= u < rest.drop_first().len() implies all[i + 1 + u]
            == #[trigger] rest.drop_first()[u] && !is_header_line(rest.drop_first()[u]) by {
            assert(rest.drop_first()[u] == rest[u + 1]);
        }
        lemma_load_appends(all, i + 1, secs2, k, rest.drop_first());
        assert(secs2[k].lines + rest.drop_first() =~= secs[k].lines + rest);
        assert(secs2.update(
            k,
            SectionSpec { name: secs2[k].name, lines: secs2[k].lines + rest.drop_first() },
        ) =~= secs.update(k, SectionSpec { name: secs[k].name, lines: secs[k].lines + rest }));
    }
}

/// Reading the chunks of the remaining sections, starting just after the
/// sections already read, rebuilds the whole store.
proof fn lemma_load_chunks(
    all: Seq<Seq<char>>,
    i: int,
    full: Seq<SectionSpec>,
    t: int,
    cur_secs: Seq<SectionSpec>,
    cur: Option<int>,
)
    requires
        store_ok(full),
        0 <= t <= full.len(),
        0 <= i <= all.len(),
        all.skip(i) == chunk_lines(full.skip(t)),
        t == 0 ==> cur_secs == Seq::<SectionSpec>::empty() && cur is None,
        t > 0 ==> cur == Option::Some(t - 1) && cur_secs == full.take(t).update(
            t - 1,
            SectionSpec {
                name: full[t - 1].name,
                lines: full[t - 1].lines.push(Seq::<char>::empty()),
            },
        ),
    ensures
        load_rec(all, i, cur_secs, cur) == Ok::<Seq<SectionSpec>, ErrorSpec>(full),
    decreases full.len() - t,
{
    reveal_strlit("#==========================================[");
    let ghost closed = close_cur(cur_secs, cur);
    if t == 0 {
        assert(closed =~= full.take(0));
    } else {
        let prev = SectionSpec {
            name: full[t - 1].name,
            lines: full[t - 1].lines.push(Seq::<char>::empty()),
        };
        assert(cur_secs[t - 1] == prev);
        assert(prev.lines.last() == Seq::<char>::empty());
        assert(prev.lines.drop_last() =~= full[t - 1].lines);
        assert(closed =~= full.take(t));
    }
    if t == full.len() {
        assert(full.skip(t) =~= Seq::<SectionSpec>::empty());
        assert(chunk_lines(full.skip(t)) =~= Seq::<Seq<char>>::empty());
        assert(all.skip(i).len() == 0);
        assert(i == all.len());
        assert(closed =~= full);
    } else {
        let sec = full[t];
        let chunk = seq![header_line(sec.name)] + sec.lines + seq![Seq::<char>::empty()];
        assert(full.skip(t)[0] == sec);
        assert(full.skip(t).drop_first() =~= full.skip(t + 1));
        assert(chunk_lines(full.skip(t)) == chunk + chunk_lines(full.skip(t + 1)));
        assert(all.skip(i).len() == chunk.len() + chunk_lines(full.skip(t + 1)).len());
        assert forall|u: int| 0 <= u < chunk.len() implies all[i + u] == #[trigger] chunk[u] by {
            assert(all.skip(i)[u] == all[i + u]);
            assert((chunk + chunk_lines(full.skip(t + 1)))[u] == chunk[u]);
        }
        lemma_header_roundtrip(sec.name);
        assert(chunk[0] == header_line(sec.name));
        assert(all[i + 0] == chunk[0]);
        assert(all[i] == header_line(sec.name));
        // the header closes the previous section and opens a fresh one
        assert forall|x: int| 0 <= x < closed.len() implies closed[x].name == full[x].name by {}
        assert forall|x: int| 0 <= x < t implies closed[x].name != sec.name by {
            assert(full[x].name != full[t].name);
        }
        lemma_sec_index_of_at(closed, sec.name, t);
        let opened = closed.push(SectionSpec { name: sec.name, lines: Seq::empty() });
        assert(load_rec(all, i, cur_secs, cur) == load_rec(all, i + 1, opened, Option::Some(t)));
        // its body lines are appended in order
        assert forall|u: int| 0 <= u < sec.lines.len() implies all[i + 1 + u]
            == #[trigger] sec.lines[u] && !is_header_line(sec.lines[u]) by {
            assert(chunk[1 + u] == sec.lines[u]);
        }
        lemma_load_appends(all, i + 1, opened, t, sec.lines);
        let filled = opened.update(
            t,
            SectionSpec { name: opened[t as int].name, lines: opened[t as int].lines + sec.lines },
        );
        assert(opened[t as int].lines + sec.lines =~= sec.lines);
        // the blank separator joins the open section's body for now
        let bi = i + 1 + sec.lines.len();
        assert(all[bi] == chunk[1 + sec.lines.len() as int]);
        assert(all[bi] =~= Seq::<char>::empty());
        assert(!is_header_line(all[bi])) by {
            assert(title_open().len() == 44);
        }
        let parted = filled.update(
            t,
            SectionSpec {
                name: filled[t as int].name,
                lines: filled[t as int].lines.push(Seq::<char>::empty()),
            },
        );
        assert(load_rec(all, bi, filled, Option::Some(t)) == load_rec(
            all,
            bi + 1,
            parted,
            Option::Some(t),
        ));
        // and the remaining chunks continue from the next section
        assert(parted =~= full.take(t + 1).update(
            t,
            SectionSpec {
                name: full[t].name,
                lines: full[t].lines.push(Seq::<char>::empty()),
            },
        ));
        assert(all.skip(bi + 1) =~= all.skip(i).skip(chunk.len() as int));
        assert(all.skip(i).skip(chunk.len() as int) =~= chunk_lines(full.skip(t + 1)));
        lemma_load_chunks(all, bi + 1, full, t + 1, parted, Option::Some(t));
    }
}

/// Round trip: serializing a well-formed store and reading the text back
/// yields the same store — every section name and every body line survives.
pub proof fn lemma_round_trip(secs: Seq<SectionSpec>)
    requires
        store_ok(secs),
    ensures
        load_spec(serialize_spec(secs)) == Ok::<Seq<SectionSpec>, ErrorSpec>(secs),
{
    lemma_serialize_split(secs);
    assert(chunk_lines(secs).skip(0) =~= chunk_lines(secs));
    assert(secs.skip(0) =~= secs);
    lemma_load_chunks(
        chunk_lines(secs),
        0,
        secs,
        0,
        Seq::<SectionSpec>::empty(),
        Option::None,
    );
}

/// Adding the same loose pattern twice is the same as adding it once.
pub proof fn lemma_add_item_idempotent(secs: Seq<SectionSpec>, p: Seq<char>)
    requires
        trim_end_spec(p) == p,
        p.len() > 0,
    ensures
        add_item_spec(add_item_spec(secs, p), p) == add_item_spec(secs, p),
{
    if !crate::gitignore::sec_has_line(secs, p) {
        lemma_add_item_once(secs, p);
    }
}

} // verus!
