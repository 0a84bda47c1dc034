//! The service inventory: loaded units merged with unit files into one row per unit, in
//! unit-name order. Units that only have a unit file appear as inactive and unloaded.
use vstd::prelude::*;
use crate::gpu::{less, lex_lt, lemma_lex_total, lemma_lex_transitive};
use crate::text::{chars_of, range_eq};

verus! {

/// A loaded unit as `systemctl list-units` reports it.
pub struct UnitInfo {
    pub unit: String,
    pub description: Option<String>,
    pub active: Option<String>,
    pub sub: Option<String>,
}

/// A unit file as `systemctl list-unit-files` reports it.
pub struct UnitFile {
    pub name: String,
    pub state: Option<String>,
}

/// One row of the inventory; `enabled` is present once a unit file was listed.
pub struct ServiceRow {
    pub name: String,
    pub description: Option<String>,
    pub state: Option<String>,
    pub sub: Option<String>,
    pub enabled: Option<Option<String>>,
}

pub type RowView = (Seq<char>, Option<Seq<char>>, Option<Seq<char>>, Option<Seq<char>>, Option<Option<Seq<char>>>);

pub open spec fn opt(s: Option<String>) -> Option<Seq<char>> {
    match s {
        Some(v) => Some(v@),
        None => None,
    }
}

pub open spec fn row_view(r: ServiceRow) -> RowView {
    (
        r.name@,
        opt(r.description),
        opt(r.state),
        opt(r.sub),
        match r.enabled {
            Some(e) => Some(opt(e)),
            None => None,
        },
    )
}

pub open spec fn rows_view(v: Seq<ServiceRow>) -> Seq<RowView> {
    v.map_values(|r: ServiceRow| row_view(r))
}

/// Rows kept in name order: the row named `name` is replaced by `f` of it, or `f` of
/// nothing is inserted where that name belongs.
pub open spec fn place(s: Seq<RowView>, name: Seq<char>, f: spec_fn(Option<RowView>) -> RowView) -> Seq<RowView>
    decreases s.len(),
{
    if s.len() == 0 {
        seq![f(None)]
    } else if s[0].0 == name {
        seq![f(Some(s[0]))] + s.drop_first()
    } else if lex_lt(name, s[0].0) {
        seq![f(None)] + s
    } else {
        seq![s[0]] + place(s.drop_first(), name, f)
    }
}

/// The row of a loaded unit (it replaces an earlier row of the same unit).
pub open spec fn unit_row(u: UnitInfo) -> spec_fn(Option<RowView>) -> RowView {
    |o: Option<RowView>| (u.unit@, opt(u.description), opt(u.active), opt(u.sub), None::<Option<Seq<char>>>)
}

/// A unit file marks its row with its state; a unit without a loaded row appears as
/// inactive and unloaded.
pub open spec fn file_row(f: UnitFile) -> spec_fn(Option<RowView>) -> RowView {
    |o: Option<RowView>| match o {
        Some(r) => (r.0, r.1, r.2, r.3, Some(opt(f.state))),
        None => (f.name@, None, Some("inactive"@), Some("unloaded"@), Some(opt(f.state))),
    }
}

pub open spec fn units_fold(us: Seq<UnitInfo>) -> Seq<RowView>
    decreases us.len(),
{
    if us.len() == 0 {
        seq![]
    } else {
        place(units_fold(us.drop_last()), us.last().unit@, unit_row(us.last()))
    }
}

pub open spec fn files_fold(s: Seq<RowView>, fs: Seq<UnitFile>) -> Seq<RowView>
    decreases fs.len(),
{
    if fs.len() == 0 {
        s
    } else {
        place(files_fold(s, fs.drop_last()), fs.last().name@, file_row(fs.last()))
    }
}

/// Rows in strictly increasing name order: one row per unit.
pub open spec fn name_ordered(s: Seq<RowView>) -> bool {
    forall|i: int, j: int| 0 <= i < j < s.len() ==> lex_lt(s[i].0, s[j].0)
}

proof fn lemma_place_at(s: Seq<RowView>, name: Seq<char>, f: spec_fn(Option<RowView>) -> RowView, p: int, found: bool)
    requires
        0 <= p <= s.len(),
        forall|j: int| 0 <= j < p ==> s[j].0 != name && !lex_lt(name, #[trigger] s[j].0),
        found ==> p < s.len() && s[p].0 == name,
        !found && p < s.len() ==> s[p].0 != name && lex_lt(name, s[p].0),
    ensures
        place(s, name, f) == s.take(p) + seq![f(if found { Some(s[p]) } else { None })] + s.skip(p + if found { 1int } else { 0 }),
    decreases p,
{
    if p == 0 {
        if s.len() == 0 {
            assert(place(s, name, f) =~= s.take(0) + seq![f(None)] + s.skip(0));
        } else if found {
            assert(place(s, name, f) =~= s.take(0) + seq![f(Some(s[0]))] + s.skip(1));
        } else {
            assert(place(s, name, f) =~= s.take(0) + seq![f(None)] + s.skip(0));
        }
    } else {
        let t = s.drop_first();
        lemma_place_at(t, name, f, p - 1, found);
        assert(s[0].0 != name && !lex_lt(name, s[0].0));
        if found {
            assert(t[p - 1] == s[p]);
        }
        assert(place(s, name, f) =~= s.take(p) + seq![f(if found { Some(s[p]) } else { None })] + s.skip(p + if found { 1int } else { 0 }));
    }
}

/// Where the row named `name` is or belongs: `(position, found)`.
fn locate(rows: &Vec<ServiceRow>, name: &Vec<char>) -> (r: (usize, bool))
    ensures
        r.0 <= rows@.len(),
        forall|j: int| 0 <= j < r.0 ==> rows_view(rows@)[j].0 != name@ && !lex_lt(name@, #[trigger] rows_view(rows@)[j].0),
        r.1 ==> r.0 < rows@.len() && rows_view(rows@)[r.0 as int].0 == name@,
        !r.1 && r.0 < rows@.len() ==> rows_view(rows@)[r.0 as int].0 != name@ && lex_lt(name@, rows_view(rows@)[r.0 as int].0),
{
    let mut i: usize = 0;
    while i < rows.len()
        invariant
            i <= rows.len(),
            forall|j: int| 0 <= j < i ==> rows_view(rows@)[j].0 != name@ && !lex_lt(name@, #[trigger] rows_view(rows@)[j].0),
        decreases rows.len() - i,
    {
        let k = chars_of(rows[i].name.as_str());
        assert(rows_view(rows@)[i as int].0 == k@);
        assert(k@.subrange(0, k@.len() as int) =~= k@);
        if range_eq(&k, 0, k.len(), name) {
            return (i, true);
        }
        if less(name, &k) {
            return (i, false);
        }
        i += 1;
    }
    (i, false)
}

fn copy_opt(s: &Option<String>) -> (r: Option<String>)
    ensures
        opt(r) == opt(*s),
{
    match s {
        Some(v) => Some(v.clone()),
        None => None,
    }
}

/// Merges the loaded units and the unit files into the inventory rows, in unit-name
/// order; a later report of a unit replaces an earlier one.
pub fn services(units: &[UnitInfo], files: &[UnitFile]) -> (r: Vec<ServiceRow>)
    ensures
        rows_view(r@) == files_fold(units_fold(units@), files@),
{
    let mut rows: Vec<ServiceRow> = Vec::new();
    let mut i: usize = 0;
    assert(rows_view(rows@) =~= Seq::<RowView>::empty());
    while i < units.len()
        invariant
            i <= units.len(),
            rows_view(rows@) == units_fold(units@.take(i as int)),
        decreases units.len() - i,
    {
        assert(units@.take(i + 1).drop_last() =~= units@.take(i as int));
        let u = &units[i];
        let name = chars_of(u.unit.as_str());
        let (p, found) = locate(&rows, &name);
        let ghost s = rows_view(rows@);
        let row = ServiceRow {
            name: u.unit.clone(),
            description: copy_opt(&u.description),
            state: copy_opt(&u.active),
            sub: copy_opt(&u.sub),
            enabled: None,
        };
        assert(row_view(row) == (unit_row(*u))(None));
        assert(row_view(row) == (unit_row(*u))(Some(s[p as int])));
        proof {
            lemma_place_at(s, u.unit@, unit_row(*u), p as int, found);
        }
        if found {
            rows.set(p, row);
        } else {
            rows.insert(p, row);
        }
        assert(rows_view(rows@) =~= s.take(p as int) + seq![(unit_row(*u))(if found { Some(s[p as int]) } else { None })] + s.skip(p + if found { 1int } else { 0 }));
        i += 1;
    }
    assert(units@.take(units.len() as int) =~= units@);
    let ghost base = rows_view(rows@);
    let mut k: usize = 0;
    while k < files.len()
        invariant
            k <= files.len(),
            rows_view(rows@) == files_fold(base, files@.take(k as int)),
        decreases files.len() - k,
    {
        assert(files@.take(k + 1).drop_last() =~= files@.take(k as int));
        let f = &files[k];
        let name = chars_of(f.name.as_str());
        let (p, found) = locate(&rows, &name);
        let ghost s = rows_view(rows@);
        proof {
            lemma_place_at(s, f.name@, file_row(*f), p as int, found);
        }
        if found {
            let old = &rows[p];
            let row = ServiceRow {
                name: old.name.clone(),
                description: copy_opt(&old.description),
                state: copy_opt(&old.state),
                sub: copy_opt(&old.sub),
                enabled: Some(copy_opt(&f.state)),
            };
            assert(row_view(row) == (file_row(*f))(Some(s[p as int])));
            rows.set(p, row);
        } else {
            let row = ServiceRow {
                name: f.name.clone(),
                description: None,
                state: Some("inactive".to_owned()),
                sub: Some("unloaded".to_owned()),
                enabled: Some(copy_opt(&f.state)),
            };
            assert(row_view(row) == (file_row(*f))(None));
            rows.insert(p, row);
        }
        assert(rows_view(rows@) =~= s.take(p as int) + seq![(file_row(*f))(if found { Some(s[p as int]) } else { None })] + s.skip(p + if found { 1int } else { 0 }));
        k += 1;
    }
    assert(files@.take(files.len() as int) =~= files@);
    rows
}

/// Placing a row keeps the rows in strict name order, so each unit has one row.
pub proof fn lemma_place_keeps_one_row_per_unit(s: Seq<RowView>, name: Seq<char>, f: spec_fn(Option<RowView>) -> RowView)
    requires
        name_ordered(s),
        forall|o: Option<RowView>| (o is None || (o->0).0 == name) ==> (#[trigger] f(o)).0 == name,
    ensures
        name_ordered(place(s, name, f)),
    decreases s.len(),
{
    let r = place(s, name, f);
    if s.len() == 0 {
    } else if s[0].0 == name {
        assert forall|i: int, j: int| 0 <= i < j < r.len() implies lex_lt(r[i].0, r[j].0) by {
            if i == 0 {
                assert(r[0].0 == s[0].0);
            }
            assert(r[j] == s[j]);
            if i > 0 {
                assert(r[i] == s[i]);
            }
        }
    } else if lex_lt(name, s[0].0) {
        assert forall|i: int, j: int| 0 <= i < j < r.len() implies lex_lt(r[i].0, r[j].0) by {
            if i == 0 {
                assert(r[0].0 == name);
                if j > 1 {
                    lemma_lex_transitive(name, s[0].0, s[j - 1].0);
                }
            } else {
                assert(r[i] == s[i - 1] && r[j] == s[j - 1]);
            }
        }
    } else {
        let t = s.drop_first();
        assert(name_ordered(t)) by {
            assert forall|i: int, j: int| 0 <= i < j < t.len() implies lex_lt(t[i].0, t[j].0) by {
                assert(t[i] == s[i + 1] && t[j] == s[j + 1]);
            }
        }
        lemma_place_keeps_one_row_per_unit(t, name, f);
        lemma_lex_total(name, s[0].0);
        let u = place(t, name, f);
        assert(r == seq![s[0]] + u);
        lemma_place_members(t, name, f);
        assert forall|x: int| 0 <= x < u.len() implies lex_lt(s[0].0, #[trigger] u[x].0) by {
            if u[x].0 != name {
                let k = choose|k: int| 0 <= k < t.len() && t[k].0 == u[x].0;
                assert(lex_lt(s[0].0, s[k + 1].0));
            }
        }
        assert forall|i: int, j: int| 0 <= i < j < r.len() implies lex_lt(r[i].0, r[j].0) by {
            if i == 0 {
                assert(r[j] == u[j - 1]);
            } else {
                assert(r[i] == u[i - 1] && r[j] == u[j - 1]);
            }
        }
    }
}

proof fn lemma_place_members(s: Seq<RowView>, name: Seq<char>, f: spec_fn(Option<RowView>) -> RowView)
    requires
        forall|o: Option<RowView>| (o is None || (o->0).0 == name) ==> (#[trigger] f(o)).0 == name,
    ensures
        forall|x: int| 0 <= x < place(s, name, f).len() ==> (#[trigger] place(s, name, f)[x]).0 == name
            || exists|k: int| 0 <= k < s.len() && s[k].0 == place(s, name, f)[x].0,
    decreases s.len(),
{
    let r = place(s, name, f);
    if s.len() == 0 {
    } else if s[0].0 == name {
        assert forall|x: int| 0 <= x < r.len() implies (#[trigger] r[x]).0 == name || exists|k: int| 0 <= k < s.len() && s[k].0 == r[x].0 by {
            if x > 0 {
                assert(r[x] == s[x]);
            }
        }
    } else if lex_lt(name, s[0].0) {
        assert forall|x: int| 0 <= x < r.len() implies (#[trigger] r[x]).0 == name || exists|k: int| 0 <= k < s.len() && s[k].0 == r[x].0 by {
            if x > 0 {
                assert(r[x] == s[x - 1]);
            }
        }
    } else {
        let t = s.drop_first();
        lemma_place_members(t, name, f);
        assert forall|x: int| 0 <= x < r.len() implies (#[trigger] r[x]).0 == name || exists|k: int| 0 <= k < s.len() && s[k].0 == r[x].0 by {
            if x == 0 {
                assert(s[0].0 == r[0].0);
            } else {
                assert(r[x] == place(t, name, f)[x - 1]);
                if place(t, name, f)[x - 1].0 != name {
                    let k = choose|k: int| 0 <= k < t.len() && t[k].0 == place(t, name, f)[x - 1].0;
                    assert(s[k + 1].0 == r[x].0);
                }
            }
        }
    }
}

/// The inventory holds one row per unit, in unit-name order.
pub proof fn lemma_inventory_is_ordered(units: Seq<UnitInfo>, files: Seq<UnitFile>)
    ensures
        name_ordered(files_fold(units_fold(units), files)),
    decreases units.len() + files.len(),
{
    if files.len() > 0 {
        lemma_inventory_is_ordered(units, files.drop_last());
        let f = files.last();
        assert forall|o: Option<RowView>| (o is None || (o->0).0 == f.name@) implies (#[trigger] (file_row(f))(o)).0 == f.name@ by {
            match o {
                Some(r) => {},
                None => {},
            }
        }
        lemma_place_keeps_one_row_per_unit(files_fold(units_fold(units), files.drop_last()), f.name@, file_row(f));
    } else if units.len() > 0 {
        lemma_inventory_is_ordered(units.drop_last(), files);
        lemma_place_keeps_one_row_per_unit(units_fold(units.drop_last()), units.last().unit@, unit_row(units.last()));
    }
}

/// Whether a row shows the unit `u` as `systemctl list-units` last reported it.
pub open spec fn shows_unit(r: RowView, u: UnitInfo) -> bool {
    r.0 == u.unit@ && r.1 == opt(u.description) && r.2 == opt(u.active) && r.3 == opt(u.sub)
}

/// Placing a row keeps every row of another name.
proof fn lemma_place_keeps_others(s: Seq<RowView>, name: Seq<char>, f: spec_fn(Option<RowView>) -> RowView, r: int)
    requires
        0 <= r < s.len(),
        s[r].0 != name,
    ensures
        exists|j: int| 0 <= j < place(s, name, f).len() && place(s, name, f)[j] == s[r],
    decreases s.len(),
{
    let t = s.drop_first();
    if s[0].0 == name {
        assert(place(s, name, f)[r] == s[r]);
    } else if lex_lt(name, s[0].0) {
        assert(place(s, name, f)[r + 1] == s[r]);
    } else if r == 0 {
        assert(place(s, name, f)[0] == s[0]);
    } else {
        lemma_place_keeps_others(t, name, f, r - 1);
        let j = choose|j: int| 0 <= j < place(t, name, f).len() && place(t, name, f)[j] == t[r - 1];
        assert(place(s, name, f)[j + 1] == s[r]);
    }
}

/// Placing a row puts in a row that `f` makes.
proof fn lemma_place_adds(s: Seq<RowView>, name: Seq<char>, f: spec_fn(Option<RowView>) -> RowView)
    ensures
        exists|j: int, o: Option<RowView>| #![trigger place(s, name, f)[j], f(o)] 0 <= j < place(s, name, f).len()
            && place(s, name, f)[j] == f(o),
    decreases s.len(),
{
    if s.len() == 0 {
        assert(place(s, name, f)[0] == f(None));
    } else if s[0].0 == name {
        assert(place(s, name, f)[0] == f(Some(s[0])));
    } else if lex_lt(name, s[0].0) {
        assert(place(s, name, f)[0] == f(None));
    } else {
        let t = s.drop_first();
        lemma_place_adds(t, name, f);
        let (j, o) = choose|j: int, o: Option<RowView>| #![trigger place(t, name, f)[j], f(o)] 0 <= j < place(t, name, f).len()
            && place(t, name, f)[j] == f(o);
        assert(place(s, name, f)[j + 1] == f(o));
    }
}

/// A unit file keeps the name, description, state and sub-state of every row.
proof fn lemma_file_keeps_unit(s: Seq<RowView>, uf: UnitFile, u: UnitInfo)
    requires
        exists|r: int| 0 <= r < s.len() && shows_unit(s[r], u),
    ensures
        exists|j: int| 0 <= j < files_step(s, uf).len() && shows_unit(files_step(s, uf)[j], u),
    decreases s.len(),
{
    let r = choose|r: int| 0 <= r < s.len() && shows_unit(s[r], u);
    let name = uf.name@;
    let f = file_row(uf);
    let t = s.drop_first();
    let res = files_step(s, uf);
    assert(res == place(s, name, f));
    if s[0].0 == name {
        if r == 0 {
            assert(res[0] == f(Some(s[0])));
        } else {
            assert(res[r] == s[r]);
        }
        assert(shows_unit(res[r], u));
    } else if lex_lt(name, s[0].0) {
        assert(res[r + 1] == s[r]);
        assert(shows_unit(res[r + 1], u));
    } else if r == 0 {
        assert(res[0] == s[0]);
        assert(shows_unit(res[0], u));
    } else {
        assert(t[r - 1] == s[r]);
        assert(shows_unit(t[r - 1], u));
        lemma_file_keeps_unit(t, uf, u);
        let j = choose|j: int| 0 <= j < files_step(t, uf).len() && shows_unit(files_step(t, uf)[j], u);
        assert(res[j + 1] == files_step(t, uf)[j]);
        assert(shows_unit(res[j + 1], u));
    }
}

pub open spec fn files_step(s: Seq<RowView>, uf: UnitFile) -> Seq<RowView> {
    place(s, uf.name@, file_row(uf))
}

proof fn lemma_units_show_last_report(us: Seq<UnitInfo>, i: int)
    requires
        0 <= i < us.len(),
        forall|j: int| i < j < us.len() ==> #[trigger] us[j].unit@ != us[i].unit@,
    ensures
        exists|r: int| 0 <= r < units_fold(us).len() && shows_unit(units_fold(us)[r], us[i]),
    decreases us.len(),
{
    let q = us.drop_last();
    let last = us.last();
    if i == us.len() - 1 {
        lemma_place_adds(units_fold(q), last.unit@, unit_row(last));
        let (j, o) = choose|j: int, o: Option<RowView>| #![trigger units_fold(us)[j], (unit_row(last))(o)] 0 <= j
            < units_fold(us).len() && units_fold(us)[j] == (unit_row(last))(o);
        assert(shows_unit(units_fold(us)[j], us[i]));
    } else {
        assert forall|j: int| i < j < q.len() implies #[trigger] q[j].unit@ != q[i].unit@ by {
            assert(q[j] == us[j]);
        }
        lemma_units_show_last_report(q, i);
        let r = choose|r: int| 0 <= r < units_fold(q).len() && shows_unit(units_fold(q)[r], q[i]);
        assert(us[us.len() - 1].unit@ != us[i].unit@);
        lemma_place_keeps_others(units_fold(q), last.unit@, unit_row(last), r);
        let j = choose|j: int| 0 <= j < units_fold(us).len() && units_fold(us)[j] == units_fold(q)[r];
        assert(shows_unit(units_fold(us)[j], us[i]));
    }
}

proof fn lemma_files_show_unit(s: Seq<RowView>, fs: Seq<UnitFile>, u: UnitInfo)
    requires
        exists|r: int| 0 <= r < s.len() && shows_unit(s[r], u),
    ensures
        exists|r: int| 0 <= r < files_fold(s, fs).len() && shows_unit(files_fold(s, fs)[r], u),
    decreases fs.len(),
{
    if fs.len() > 0 {
        lemma_files_show_unit(s, fs.drop_last(), u);
        lemma_file_keeps_unit(files_fold(s, fs.drop_last()), fs.last(), u);
        let prev = files_fold(s, fs.drop_last());
        assert(files_fold(s, fs) == files_step(prev, fs.last()));
        let j = choose|j: int| 0 <= j < files_step(prev, fs.last()).len() && shows_unit(
            files_step(prev, fs.last())[j],
            u,
        );
        assert(shows_unit(files_fold(s, fs)[j], u));
    } else {
        let r = choose|r: int| 0 <= r < s.len() && shows_unit(s[r], u);
        assert(files_fold(s, fs) == s);
        assert(shows_unit(files_fold(s, fs)[r], u));
    }
}

/// Unit files only add the enabled column: the row of every loaded unit shows the name,
/// description, active state and sub-state of the last `list-units` report of that unit,
/// whatever unit files are listed, and it is the only row of that name.
pub proof fn lemma_loaded_units_keep_their_state(units: Seq<UnitInfo>, files: Seq<UnitFile>, i: int)
    requires
        0 <= i < units.len(),
        forall|j: int| i < j < units.len() ==> #[trigger] units[j].unit@ != units[i].unit@,
    ensures
        exists|r: int| 0 <= r < files_fold(units_fold(units), files).len() && shows_unit(
            files_fold(units_fold(units), files)[r],
            units[i],
        ),
        forall|r: int| 0 <= r < files_fold(units_fold(units), files).len() && (#[trigger] files_fold(
            units_fold(units),
            files,
        )[r]).0 == units[i].unit@ ==> files_fold(units_fold(units), files)[r].1 == opt(units[i].description)
            && files_fold(units_fold(units), files)[r].2 == opt(units[i].active) && files_fold(units_fold(units), files)[r].3
            == opt(units[i].sub),
{
    lemma_units_show_last_report(units, i);
    lemma_files_show_unit(units_fold(units), files, units[i]);
    lemma_inventory_is_ordered(units, files);
    let res = files_fold(units_fold(units), files);
    let k = choose|k: int| 0 <= k < res.len() && shows_unit(res[k], units[i]);
    assert forall|r: int| 0 <= r < res.len() && (#[trigger] res[r]).0 == units[i].unit@ implies res[r].1 == opt(
        units[i].description,
    ) && res[r].2 == opt(units[i].active) && res[r].3 == opt(units[i].sub) by {
        if r < k {
            assert(lex_lt(res[r].0, res[k].0));
            crate::gpu::lemma_lex_irreflexive(res[r].0);
        } else if r > k {
            assert(lex_lt(res[k].0, res[r].0));
            crate::gpu::lemma_lex_irreflexive(res[r].0);
        }
    }
}

/// A login session as `loginctl list-sessions` reports it.
pub struct SessionInfo {
    pub uid: Option<u64>,
    pub user: Option<String>,
}

/// One user: its name, how many processes it runs and their summed resident memory, and
/// the indices of its sessions in the session list.
pub struct UserRow {
    pub uid: u32,
    pub name: Option<String>,
    pub count: u64,
    pub memory: u64,
    pub sessions: Vec<usize>,
}

pub type UserView = (u32, Option<Seq<char>>, u64, u64, Seq<usize>);

pub open spec fn user_view(r: UserRow) -> UserView {
    (r.uid, opt(r.name), r.count, r.memory, r.sessions@)
}

pub open spec fn users_view(v: Seq<UserRow>) -> Seq<UserView> {
    v.map_values(|r: UserRow| user_view(r))
}

/// Rows kept in uid order: the row of `uid` is replaced by `f` of it, or `f` of nothing
/// is inserted where that uid belongs.
pub open spec fn place_user(s: Seq<UserView>, uid: u32, f: spec_fn(Option<UserView>) -> UserView) -> Seq<UserView>
    decreases s.len(),
{
    if s.len() == 0 {
        seq![f(None)]
    } else if s[0].0 == uid {
        seq![f(Some(s[0]))] + s.drop_first()
    } else if uid < s[0].0 {
        seq![f(None)] + s
    } else {
        seq![s[0]] + place_user(s.drop_first(), uid, f)
    }
}

/// A process counts towards its user: one more process, its memory added (the sums wrap
/// as `u64` addition does); a new user is named after the process's user name.
pub open spec fn process_step(p: crate::process::Process) -> spec_fn(Option<UserView>) -> UserView {
    |o: Option<UserView>| match o {
        Some(r) => (r.0, r.1, crate::metrics::wrap(r.2 as nat + 1), crate::metrics::wrap(r.3 as nat + p.memory as nat), r.4),
        None => (p.uid, Some(p.user@), 1u64, p.memory, Seq::<usize>::empty()),
    }
}

/// A session joins its user's row (as `uid as u32`), or starts one named after the
/// session's user.
pub open spec fn session_step(r: SessionInfo, index: usize) -> spec_fn(Option<UserView>) -> UserView {
    |o: Option<UserView>| match o {
        Some(u) => (u.0, u.1, u.2, u.3, u.4.push(index)),
        None => ((r.uid->0) as u32, opt(r.user), 0u64, 0u64, seq![index]),
    }
}

pub open spec fn users_fold(ps: Seq<crate::process::Process>) -> Seq<UserView>
    decreases ps.len(),
{
    if ps.len() == 0 {
        seq![]
    } else {
        place_user(users_fold(ps.drop_last()), ps.last().uid, process_step(ps.last()))
    }
}

pub open spec fn sessions_fold(s: Seq<UserView>, rs: Seq<SessionInfo>) -> Seq<UserView>
    decreases rs.len(),
{
    if rs.len() == 0 {
        s
    } else {
        let r = rs.last();
        let base = sessions_fold(s, rs.drop_last());
        match r.uid {
            Some(u) => place_user(base, u as u32, session_step(r, (rs.len() - 1) as usize)),
            None => base,
        }
    }
}

proof fn lemma_place_user_at(s: Seq<UserView>, uid: u32, f: spec_fn(Option<UserView>) -> UserView, p: int, found: bool)
    requires
        0 <= p <= s.len(),
        forall|j: int| 0 <= j < p ==> (#[trigger] s[j]).0 < uid,
        found ==> p < s.len() && s[p].0 == uid,
        !found && p < s.len() ==> uid < s[p].0,
    ensures
        place_user(s, uid, f) == s.take(p) + seq![f(if found { Some(s[p]) } else { None })] + s.skip(p + if found { 1int } else { 0 }),
    decreases p,
{
    if p == 0 {
        if s.len() == 0 {
            assert(place_user(s, uid, f) =~= s.take(0) + seq![f(None)] + s.skip(0));
        } else if found {
            assert(place_user(s, uid, f) =~= s.take(0) + seq![f(Some(s[0]))] + s.skip(1));
        } else {
            assert(place_user(s, uid, f) =~= s.take(0) + seq![f(None)] + s.skip(0));
        }
    } else {
        let t = s.drop_first();
        assert(s[0].0 < uid);
        lemma_place_user_at(t, uid, f, p - 1, found);
        if found {
            assert(t[p - 1] == s[p]);
        }
        assert(place_user(s, uid, f) =~= s.take(p) + seq![f(if found { Some(s[p]) } else { None })] + s.skip(p + if found { 1int } else { 0 }));
    }
}

fn locate_user(rows: &Vec<UserRow>, uid: u32) -> (r: (usize, bool))
    ensures
        r.0 <= rows@.len(),
        forall|j: int| 0 <= j < r.0 ==> (#[trigger] users_view(rows@)[j]).0 < uid,
        r.1 ==> r.0 < rows@.len() && users_view(rows@)[r.0 as int].0 == uid,
        !r.1 && r.0 < rows@.len() ==> uid < users_view(rows@)[r.0 as int].0,
{
    let mut i: usize = 0;
    while i < rows.len()
        invariant
            i <= rows.len(),
            forall|j: int| 0 <= j < i ==> (#[trigger] users_view(rows@)[j]).0 < uid,
        decreases rows.len() - i,
    {
        assert(users_view(rows@)[i as int].0 == rows@[i as int].uid);
        if rows[i].uid == uid {
            return (i, true);
        }
        if uid < rows[i].uid {
            return (i, false);
        }
        i += 1;
    }
    (i, false)
}

fn copy_indices(v: &Vec<usize>) -> (r: Vec<usize>)
    ensures
        r@ == v@,
{
    let mut r: Vec<usize> = Vec::new();
    let mut i: usize = 0;
    while i < v.len()
        invariant
            i <= v.len(),
            r@ == v@.take(i as int),
        decreases v.len() - i,
    {
        r.push(v[i]);
        i += 1;
        assert(r@ =~= v@.take(i as int));
    }
    assert(v@.take(v.len() as int) =~= v@);
    r
}

/// Per user, in uid order: process count, summed memory and sessions, from the process
/// list and the session list.
pub fn users(processes: &[crate::process::Process], sessions: &[SessionInfo]) -> (r: Vec<UserRow>)
    ensures
        users_view(r@) == sessions_fold(users_fold(processes@), sessions@),
{
    let mut rows: Vec<UserRow> = Vec::new();
    assert(users_view(rows@) =~= Seq::<UserView>::empty());
    let mut i: usize = 0;
    while i < processes.len()
        invariant
            i <= processes.len(),
            users_view(rows@) == users_fold(processes@.take(i as int)),
        decreases processes.len() - i,
    {
        assert(processes@.take(i + 1).drop_last() =~= processes@.take(i as int));
        let p = &processes[i];
        let (k, found) = locate_user(&rows, p.uid);
        let ghost s = users_view(rows@);
        proof {
            lemma_place_user_at(s, p.uid, process_step(*p), k as int, found);
        }
        if found {
            let old = &rows[k];
            proof {
                crate::text::lemma_wrapping_sum(old.memory as nat, p.memory);
                vstd::arithmetic::div_mod::lemma_small_mod(old.memory as nat, 0x1_0000_0000_0000_0000nat);
                crate::text::lemma_wrapping_sum(old.count as nat, 1);
                vstd::arithmetic::div_mod::lemma_small_mod(old.count as nat, 0x1_0000_0000_0000_0000nat);
            }
            let row = UserRow {
                uid: old.uid,
                name: copy_opt_string(&old.name),
                count: old.count.wrapping_add(1),
                memory: old.memory.wrapping_add(p.memory),
                sessions: copy_indices(&old.sessions),
            };
            assert(user_view(row) == (process_step(*p))(Some(s[k as int])));
            rows.set(k, row);
        } else {
            let row = UserRow {
                uid: p.uid,
                name: Some(p.user.clone()),
                count: 1,
                memory: p.memory,
                sessions: Vec::new(),
            };
            assert(user_view(row) =~~= (process_step(*p))(None));
            rows.insert(k, row);
        }
        assert(users_view(rows@) =~= s.take(k as int) + seq![(process_step(*p))(if found { Some(s[k as int]) } else { None })] + s.skip(k + if found { 1int } else { 0 }));
        i += 1;
    }
    assert(processes@.take(processes.len() as int) =~= processes@);
    let ghost base = users_view(rows@);
    let mut j: usize = 0;
    while j < sessions.len()
        invariant
            j <= sessions.len(),
            users_view(rows@) == sessions_fold(base, sessions@.take(j as int)),
        decreases sessions.len() - j,
    {
        assert(sessions@.take(j + 1).drop_last() =~= sessions@.take(j as int));
        assert(sessions@.take(j + 1).last() == sessions@[j as int]);
        let r = &sessions[j];
        match r.uid {
            Some(u) => {
                let uid = u as u32;
                let (k, found) = locate_user(&rows, uid);
                let ghost s = users_view(rows@);
                proof {
                    lemma_place_user_at(s, uid, session_step(*r, j), k as int, found);
                }
                if found {
                    let old = &rows[k];
                    let mut list = copy_indices(&old.sessions);
                    list.push(j);
                    let row = UserRow {
                        uid: old.uid,
                        name: copy_opt_string(&old.name),
                        count: old.count,
                        memory: old.memory,
                        sessions: list,
                    };
                    assert(user_view(row) =~~= (session_step(*r, j))(Some(s[k as int])));
                    rows.set(k, row);
                } else {
                    let row = UserRow {
                        uid,
                        name: copy_opt_string(&r.user),
                        count: 0,
                        memory: 0,
                        sessions: vec![j],
                    };
                    assert(row.sessions@ =~= seq![j]);
                    assert(user_view(row) =~~= (session_step(*r, j))(None));
                    rows.insert(k, row);
                }
                assert(users_view(rows@) =~= s.take(k as int) + seq![(session_step(*r, j))(if found { Some(s[k as int]) } else { None })] + s.skip(k + if found { 1int } else { 0 }));
            },
            None => {},
        }
        j += 1;
    }
    assert(sessions@.take(sessions.len() as int) =~= sessions@);
    rows
}

fn copy_opt_string(s: &Option<String>) -> (r: Option<String>)
    ensures
        opt(r) == opt(*s),
{
    match s {
        Some(v) => Some(v.clone()),
        None => None,
    }
}

/// Rows in strictly increasing uid order: one row per user.
pub open spec fn uid_ordered(s: Seq<UserView>) -> bool {
    forall|i: int, j: int| 0 <= i < j < s.len() ==> s[i].0 < s[j].0
}

proof fn lemma_place_user_ordered(s: Seq<UserView>, uid: u32, f: spec_fn(Option<UserView>) -> UserView)
    requires
        uid_ordered(s),
        forall|o: Option<UserView>| (o is None || (o->0).0 == uid) ==> (#[trigger] f(o)).0 == uid,
    ensures
        uid_ordered(place_user(s, uid, f)),
        forall|x: int| 0 <= x < place_user(s, uid, f).len() ==> (#[trigger] place_user(s, uid, f)[x]).0 == uid
            || exists|k: int| 0 <= k < s.len() && s[k].0 == place_user(s, uid, f)[x].0,
    decreases s.len(),
{
    let r = place_user(s, uid, f);
    if s.len() == 0 {
    } else if s[0].0 == uid {
        assert forall|x: int| 0 <= x < r.len() implies (#[trigger] r[x]).0 == uid || exists|k: int| 0 <= k < s.len() && s[k].0 == r[x].0 by {
            if x > 0 {
                assert(r[x] == s[x]);
            }
        }
        assert forall|i: int, j: int| 0 <= i < j < r.len() implies r[i].0 < r[j].0 by {
            assert(r[j] == s[j]);
            if i > 0 {
                assert(r[i] == s[i]);
            }
        }
    } else if uid < s[0].0 {
        assert forall|x: int| 0 <= x < r.len() implies (#[trigger] r[x]).0 == uid || exists|k: int| 0 <= k < s.len() && s[k].0 == r[x].0 by {
            if x > 0 {
                assert(r[x] == s[x - 1]);
            }
        }
        assert forall|i: int, j: int| 0 <= i < j < r.len() implies r[i].0 < r[j].0 by {
            assert(r[j] == s[j - 1]);
            if i > 0 {
                assert(r[i] == s[i - 1]);
            }
        }
    } else {
        let t = s.drop_first();
        assert(uid_ordered(t)) by {
            assert forall|i: int, j: int| 0 <= i < j < t.len() implies t[i].0 < t[j].0 by {
                assert(t[i] == s[i + 1] && t[j] == s[j + 1]);
            }
        }
        lemma_place_user_ordered(t, uid, f);
        let u = place_user(t, uid, f);
        assert(r == seq![s[0]] + u);
        assert forall|x: int| 0 <= x < u.len() implies s[0].0 < #[trigger] u[x].0 by {
            if u[x].0 != uid {
                let k = choose|k: int| 0 <= k < t.len() && t[k].0 == u[x].0;
                assert(s[0].0 < s[k + 1].0);
            }
        }
        assert forall|i: int, j: int| 0 <= i < j < r.len() implies r[i].0 < r[j].0 by {
            if i == 0 {
                assert(r[j] == u[j - 1]);
            } else {
                assert(r[i] == u[i - 1] && r[j] == u[j - 1]);
            }
        }
        assert forall|x: int| 0 <= x < r.len() implies (#[trigger] r[x]).0 == uid || exists|k: int| 0 <= k < s.len() && s[k].0 == r[x].0 by {
            if x == 0 {
                assert(s[0].0 == r[0].0);
            } else {
                assert(r[x] == u[x - 1]);
                if u[x - 1].0 != uid {
                    let k = choose|k: int| 0 <= k < t.len() && t[k].0 == u[x - 1].0;
                    assert(s[k + 1].0 == r[x].0);
                }
            }
        }
    }
}

/// The user list holds one row per user, in uid order.
pub proof fn lemma_users_are_ordered(processes: Seq<crate::process::Process>, sessions: Seq<SessionInfo>)
    ensures
        uid_ordered(sessions_fold(users_fold(processes), sessions)),
    decreases processes.len() + sessions.len(),
{
    if sessions.len() > 0 {
        lemma_users_are_ordered(processes, sessions.drop_last());
        let r = sessions.last();
        match r.uid {
            Some(u) => {
                let f = session_step(r, (sessions.len() - 1) as usize);
                assert forall|o: Option<UserView>| (o is None || (o->0).0 == u as u32) implies (#[trigger] f(o)).0 == u as u32 by {
                    match o {
                        Some(v) => {},
                        None => {},
                    }
                }
                lemma_place_user_ordered(sessions_fold(users_fold(processes), sessions.drop_last()), u as u32, f);
            },
            None => {},
        }
    } else if processes.len() > 0 {
        lemma_users_are_ordered(processes.drop_last(), sessions);
        let p = processes.last();
        let f = process_step(p);
        assert forall|o: Option<UserView>| (o is None || (o->0).0 == p.uid) implies (#[trigger] f(o)).0 == p.uid by {
            match o {
                Some(v) => {},
                None => {},
            }
        }
        lemma_place_user_ordered(users_fold(processes.drop_last()), p.uid, f);
    }
}

} // verus!
