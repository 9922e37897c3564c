//! Turning roster rows into directory records: header-column
//! resolution, privacy filtering, active-status lookup, and ordering by
//! display name.

use vstd::prelude::*;
use vstd::seq_lib::to_multiset_insert;
use crate::strutil::{str_ieq, is_privacy_marker, lex_le, eq_ignore_case, privacy_marked, str_le};
use crate::record::{Record, RecordView, name_spec};
use crate::sysinfo::HostMap;

verus! {

/// The failures of record construction.
#[derive(Debug, Clone, Copy, PartialEq, Eq, Structural)]
pub enum ConfigError {
    /// One of the four required roster columns has no header.
    MissingColumn,
}

/// The index of the last header that equals the canonical column name
/// up to ASCII case, if any does: a later duplicate hides an earlier
/// one.
pub open spec fn last_match(hs: Seq<String>, name: Seq<char>) -> Option<int>
    decreases hs.len(),
{
    if hs.len() == 0 {
        None
    } else if str_ieq(hs.last()@, name) {
        Some(hs.len() - 1)
    } else {
        last_match(hs.drop_last(), name)
    }
}

/// A matched column index is a position in the header row.
pub proof fn lemma_last_match_in_range(hs: Seq<String>, name: Seq<char>)
    ensures
        match last_match(hs, name) {
            Some(i) => 0 <= i < hs.len() && str_ieq(hs[i]@, name),
            None => forall|j: int| 0 <= j < hs.len() ==> !str_ieq(hs[j]@, name),
        },
    decreases hs.len(),
{
    if hs.len() > 0 && !str_ieq(hs.last()@, name) {
        lemma_last_match_in_range(hs.drop_last(), name);
        if last_match(hs.drop_last(), name) is None {
            assert forall|j: int| 0 <= j < hs.len() implies !str_ieq(hs[j]@, name) by {
                if j < hs.len() - 1 {
                    assert(hs.drop_last()[j] == hs[j]);
                }
            }
        }
    }
}

proof fn lemma_last_match_step(hs: Seq<String>, name: Seq<char>, i: int)
    requires
        0 <= i < hs.len(),
    ensures
        last_match(hs.take(i + 1), name) == (if str_ieq(hs[i]@, name) {
            Some(i)
        } else {
            last_match(hs.take(i), name)
        }),
{
    assert(hs.take(i + 1).drop_last() =~= hs.take(i));
    assert(hs.take(i + 1).last() == hs[i]);
}

/// Resolution is insensitive to the case of the headers: two header
/// rows that agree up to ASCII case resolve every column name alike.
pub proof fn lemma_resolution_case_insensitive(hs1: Seq<String>, hs2: Seq<String>, name: Seq<char>)
    requires
        hs1.len() == hs2.len(),
        forall|i: int| 0 <= i < hs1.len() ==> str_ieq(hs1[i]@, hs2[i]@),
    ensures
        last_match(hs1, name) == last_match(hs2, name),
    decreases hs1.len(),
{
    if hs1.len() > 0 {
        crate::strutil::lemma_str_ieq_equiv(hs1.last()@, hs2.last()@, name);
        assert(hs1[hs1.len() - 1]@ == hs1.last()@);
        if !str_ieq(hs1.last()@, name) {
            assert forall|i: int| 0 <= i < hs1.len() - 1 implies str_ieq(
                hs1.drop_last()[i]@,
                hs2.drop_last()[i]@,
            ) by {
                assert(hs1[i]@ == hs1.drop_last()[i]@);
            }
            lemma_resolution_case_insensitive(hs1.drop_last(), hs2.drop_last(), name);
        }
    }
}

/// Resolution does not depend on where a column stands: when exactly
/// one header carries the canonical name, that header is resolved,
/// whatever its position.
pub proof fn lemma_resolution_unique_position(hs: Seq<String>, name: Seq<char>, k: int)
    requires
        0 <= k < hs.len(),
        str_ieq(hs[k]@, name),
        forall|j: int| 0 <= j < hs.len() && j != k ==> !str_ieq(hs[j]@, name),
    ensures
        last_match(hs, name) == Some(k),
    decreases hs.len(),
{
    if k == hs.len() - 1 {
        assert(str_ieq(hs.last()@, name));
    } else {
        assert(!str_ieq(hs.last()@, name));
        assert forall|j: int| 0 <= j < hs.len() - 1 && j != k implies !str_ieq(
            hs.drop_last()[j]@,
            name,
        ) by {
            assert(hs.drop_last()[j]@ == hs[j]@);
        }
        assert(hs.drop_last()[k]@ == hs[k]@);
        lemma_resolution_unique_position(hs.drop_last(), name, k);
    }
}

/// The four required columns, or one of them is missing from the
/// header row.
pub open spec fn missing_required(hs: Seq<String>) -> bool {
    ||| last_match(hs, "first_name"@) is None
    ||| last_match(hs, "name"@) is None
    ||| last_match(hs, "callsign"@) is None
    ||| last_match(hs, "telephone"@) is None
}

/// The resolved positions of the roster columns in the header row.
pub struct ColumnMap {
    pub first_name: usize,
    pub last_name: usize,
    pub callsign: usize,
    pub phone: usize,
    pub privacy: Option<usize>,
}

/// An executable optional index agrees with a resolved optional
/// position.
pub open spec fn om(o: Option<usize>, m: Option<int>) -> bool {
    match (o, m) {
        (Option::None, Option::None) => true,
        (Option::Some(a), Option::Some(b)) => a as int == b,
        _ => false,
    }
}

/// Resolves each canonical column name against the header row, up to
/// ASCII case, the last matching header winning; fails when one of the
/// four required columns has no header.
pub fn resolve_columns(headers: &Vec<String>) -> (r: Result<ColumnMap, ConfigError>)
    ensures
        match r {
            Ok(cm) => {
                &&& !missing_required(headers@)
                &&& last_match(headers@, "first_name"@) == Some(cm.first_name as int)
                &&& last_match(headers@, "name"@) == Some(cm.last_name as int)
                &&& last_match(headers@, "callsign"@) == Some(cm.callsign as int)
                &&& last_match(headers@, "telephone"@) == Some(cm.phone as int)
                &&& om(cm.privacy, last_match(headers@, "privat"@))
            },
            Err(e) => e == ConfigError::MissingColumn && missing_required(headers@),
        },
{
    let n = headers.len();
    let mut first: Option<usize> = None;
    let mut last: Option<usize> = None;
    let mut call: Option<usize> = None;
    let mut phone: Option<usize> = None;
    let mut privacy: Option<usize> = None;
    let mut i: usize = 0;
    proof {
        assert(headers@.take(0) =~= Seq::<String>::empty());
    }
    while i < n
        invariant
            n == headers@.len(),
            0 <= i <= n,
            om(first, last_match(headers@.take(i as int), "first_name"@)),
            om(last, last_match(headers@.take(i as int), "name"@)),
            om(call, last_match(headers@.take(i as int), "callsign"@)),
            om(phone, last_match(headers@.take(i as int), "telephone"@)),
            om(privacy, last_match(headers@.take(i as int), "privat"@)),
        decreases n - i,
    {
        proof {
            lemma_last_match_step(headers@, "first_name"@, i as int);
            lemma_last_match_step(headers@, "name"@, i as int);
            lemma_last_match_step(headers@, "callsign"@, i as int);
            lemma_last_match_step(headers@, "telephone"@, i as int);
            lemma_last_match_step(headers@, "privat"@, i as int);
        }
        let h = &headers[i];
        if eq_ignore_case(h.as_str(), "first_name") {
            first = Some(i);
        }
        if eq_ignore_case(h.as_str(), "name") {
            last = Some(i);
        }
        if eq_ignore_case(h.as_str(), "callsign") {
            call = Some(i);
        }
        if eq_ignore_case(h.as_str(), "telephone") {
            phone = Some(i);
        }
        if eq_ignore_case(h.as_str(), "privat") {
            privacy = Some(i);
        }
        i = i + 1;
    }
    proof {
        assert(headers@.take(n as int) =~= headers@);
    }
    match (first, last, call, phone) {
        (Some(f), Some(l), Some(c), Some(p)) => Ok(
            ColumnMap { first_name: f, last_name: l, callsign: c, phone: p, privacy },
        ),
        _ => Err(ConfigError::MissingColumn),
    }
}

/// Whether a row stays in the directory: it is dropped only when a
/// privacy column exists and its trimmed value is `y` in either case.
pub open spec fn keep_row(row: Seq<String>, privacy: Option<int>) -> bool {
    match privacy {
        Option::None => true,
        Option::Some(p) => !is_privacy_marker(row[p]@),
    }
}

/// The record a kept row yields: the four resolved fields, and the
/// active flag saying whether the phone number is a key of the
/// extension map.
pub open spec fn row_record(
    row: Seq<String>,
    fi: int,
    li: int,
    ci: int,
    pi: int,
    am: Map<Seq<char>, Seq<char>>,
) -> RecordView {
    RecordView {
        firstname: row[fi]@,
        lastname: row[li]@,
        callsign: row[ci]@,
        phonenumber: row[pi]@,
        isactive: am.contains_key(row[pi]@),
    }
}

/// The records the rows yield, in row order, private rows dropped.
pub open spec fn built_rows(
    rows: Seq<Vec<String>>,
    fi: int,
    li: int,
    ci: int,
    pi: int,
    privacy: Option<int>,
    am: Map<Seq<char>, Seq<char>>,
) -> Seq<RecordView>
    decreases rows.len(),
{
    if rows.len() == 0 {
        Seq::<RecordView>::empty()
    } else {
        let rest = built_rows(rows.drop_last(), fi, li, ci, pi, privacy, am);
        if keep_row(rows.last()@, privacy) {
            rest.push(row_record(rows.last()@, fi, li, ci, pi, am))
        } else {
            rest
        }
    }
}

/// The index a required column resolves to; meaningful only when the
/// column is present.
pub open spec fn resolved(hs: Seq<String>, name: Seq<char>) -> int {
    match last_match(hs, name) {
        Option::Some(i) => i,
        Option::None => 0,
    }
}

/// The records that a roster with the given header row yields, in row
/// order, before sorting.
pub open spec fn built_of(
    rows: Seq<Vec<String>>,
    hs: Seq<String>,
    am: Map<Seq<char>, Seq<char>>,
) -> Seq<RecordView> {
    built_rows(
        rows,
        resolved(hs, "first_name"@),
        resolved(hs, "name"@),
        resolved(hs, "callsign"@),
        resolved(hs, "telephone"@),
        last_match(hs, "privat"@),
        am,
    )
}

/// The sequence is ordered ascending by display name.
pub open spec fn sorted_by_name(s: Seq<RecordView>) -> bool {
    forall|a: int, b: int|
        0 <= a < b < s.len() ==> #[trigger] lex_le(name_spec(s[a]), name_spec(s[b]))
}

/// The views of a sequence of records.
pub open spec fn views_of(s: Seq<Record>) -> Seq<RecordView> {
    s.map_values(|r: Record| r@)
}

fn insertion_point(out: &Vec<Record>, xname: &String) -> (j: usize)
    ensures
        0 <= j <= out@.len(),
        forall|a: int| 0 <= a < j ==> lex_le(name_spec(#[trigger] out@[a]@), xname@),
        j < out@.len() ==> !lex_le(name_spec(out@[j as int]@), xname@),
{
    let n = out.len();
    let mut j: usize = 0;
    while j < n
        invariant
            n == out@.len(),
            0 <= j <= n,
            forall|a: int| 0 <= a < j ==> lex_le(name_spec(#[trigger] out@[a]@), xname@),
        decreases n - j,
    {
        let jname = out[j].name_for_entry();
        if !str_le(jname.as_str(), xname.as_str()) {
            return j;
        }
        j = j + 1;
    }
    j
}

fn insert_sorted(out: Vec<Record>, x: Record) -> (r: Vec<Record>)
    requires
        sorted_by_name(views_of(out@)),
    ensures
        sorted_by_name(views_of(r@)),
        views_of(r@).to_multiset() == views_of(out@).to_multiset().insert(x@),
{
    broadcast use to_multiset_insert;

    let xname = x.name_for_entry();
    let j = insertion_point(&out, &xname);
    let ghost o = views_of(out@);
    let mut res = out;
    res.insert(j, x);
    proof {
        assert(views_of(res@) =~= o.insert(j as int, x@));
        let nv = views_of(res@);
        assert forall|a: int, b: int| 0 <= a < b < nv.len() implies #[trigger] lex_le(
            name_spec(nv[a]),
            name_spec(nv[b]),
        ) by {
            if b < j {
                assert(nv[a] == o[a] && nv[b] == o[b]);
            } else if a < j && b == j {
                assert(nv[a] == o[a] && nv[b] == x@);
            } else if a < j && b > j {
                assert(nv[a] == o[a] && nv[b] == o[b - 1]);
                if a < b - 1 {
                    assert(lex_le(name_spec(o[a]), name_spec(o[b - 1])));
                }
            } else if a == j && b > j {
                assert(nv[a] == x@ && nv[b] == o[b - 1]);
                crate::strutil::lemma_lex_le_total(name_spec(o[j as int]), name_spec(x@));
                assert(lex_le(name_spec(x@), name_spec(o[j as int])));
                if b - 1 > j {
                    assert(lex_le(name_spec(o[j as int]), name_spec(o[b - 1])));
                    crate::strutil::lemma_lex_le_trans(
                        name_spec(x@),
                        name_spec(o[j as int]),
                        name_spec(o[b - 1]),
                    );
                }
            } else {
                assert(a > j && b > j);
                assert(nv[a] == o[a - 1] && nv[b] == o[b - 1]);
            }
        }
    }
    res
}

/// Orders records ascending by display name; the result holds exactly
/// the records given.
pub fn sort_records(input: Vec<Record>) -> (r: Vec<Record>)
    ensures
        sorted_by_name(views_of(r@)),
        views_of(r@).to_multiset() == views_of(input@).to_multiset(),
{
    broadcast use vstd::seq_lib::group_to_multiset_ensures;

    let mut work = input;
    let mut out: Vec<Record> = Vec::new();
    proof {
        assert(views_of(out@) =~= Seq::<RecordView>::empty());
        assert(views_of(out@).to_multiset().add(views_of(work@).to_multiset()) =~= views_of(
            work@,
        ).to_multiset());
    }
    while work.len() > 0
        invariant
            sorted_by_name(views_of(out@)),
            views_of(out@).to_multiset().add(views_of(work@).to_multiset()) == views_of(
                input@,
            ).to_multiset(),
        decreases work.len(),
    {
        broadcast use vstd::seq_lib::group_to_multiset_ensures;

        let ghost w0 = views_of(work@);
        let x = match work.pop() {
            Some(x) => x,
            None => {
                proof {
                    assert(false);
                }
                unreached()
            },
        };
        proof {
            assert(views_of(work@) =~= w0.drop_last());
            assert(w0.drop_last() =~= w0.remove(w0.len() - 1));
            assert(w0[w0.len() - 1] == x@);
        }
        let ghost o0 = views_of(out@);
        let out2 = insert_sorted(out, x);
        out = out2;
        proof {
            assert(views_of(out@).to_multiset().add(views_of(work@).to_multiset()) =~= o0
                .to_multiset().add(w0.to_multiset()));
        }
    }
    proof {
        assert(views_of(work@) =~= Seq::<RecordView>::empty());
        assert(views_of(out@).to_multiset().add(views_of(work@).to_multiset()) =~= views_of(
            out@,
        ).to_multiset());
    }
    out
}

/// Builds the directory records of a roster: resolves the required
/// columns case-insensitively (failing when one is missing), drops the
/// rows marked private, flags each record whose phone number is an
/// active extension, and orders the result by display name.
///
/// The active lookup takes the phone number verbatim: every key of the
/// extension map is a digit string (`lemma_active_map_keys`), and
/// against a digit string a case-folded comparison and a verbatim one
/// agree (`lemma_ieq_on_digits`), so folding the number first could not
/// change the outcome.
pub fn build_records(rows: &Vec<Vec<String>>, headers: &Vec<String>, active: &HostMap) -> (r:
    Result<Vec<Record>, ConfigError>)
    requires
        active.wf(),
        forall|i: int| 0 <= i < rows@.len() ==> #[trigger] rows@[i]@.len() == headers@.len(),
    ensures
        match r {
            Ok(recs) => {
                &&& !missing_required(headers@)
                &&& sorted_by_name(views_of(recs@))
                &&& views_of(recs@).to_multiset() == built_of(
                    rows@,
                    headers@,
                    active@,
                ).to_multiset()
            },
            Err(e) => e == ConfigError::MissingColumn && missing_required(headers@),
        },
{
    let cm = match resolve_columns(headers) {
        Ok(cm) => cm,
        Err(e) => {
            return Err(e);
        },
    };
    let ghost fi = cm.first_name as int;
    let ghost li = cm.last_name as int;
    let ghost ci = cm.callsign as int;
    let ghost pi = cm.phone as int;
    let ghost pv = last_match(headers@, "privat"@);
    let ghost am = active@;
    let n = rows.len();
    let mut raw: Vec<Record> = Vec::new();
    let mut i: usize = 0;
    proof {
        assert(views_of(raw@) =~= Seq::<RecordView>::empty());
        assert(rows@.take(0) =~= Seq::<Vec<String>>::empty());
        lemma_last_match_in_range(headers@, "first_name"@);
        lemma_last_match_in_range(headers@, "name"@);
        lemma_last_match_in_range(headers@, "callsign"@);
        lemma_last_match_in_range(headers@, "telephone"@);
        lemma_last_match_in_range(headers@, "privat"@);
    }
    while i < n
        invariant
            n == rows@.len(),
            0 <= i <= n,
            active.wf(),
            am == active@,
            forall|k: int| 0 <= k < rows@.len() ==> #[trigger] rows@[k]@.len() == headers@.len(),
            cm.first_name < headers@.len(),
            cm.last_name < headers@.len(),
            cm.callsign < headers@.len(),
            cm.phone < headers@.len(),
            fi == cm.first_name as int && li == cm.last_name as int && ci == cm.callsign as int
                && pi == cm.phone as int,
            om(cm.privacy, pv),
            match cm.privacy {
                Option::Some(p) => p < headers@.len(),
                Option::None => true,
            },
            views_of(raw@) == built_rows(rows@.take(i as int), fi, li, ci, pi, pv, am),
        decreases n - i,
    {
        let row = &rows[i];
        proof {
            assert(rows@.take(i + 1).drop_last() =~= rows@.take(i as int));
            assert(rows@.take(i + 1).last() == rows@[i as int]);
        }
        let keep = match cm.privacy {
            Some(p) => !privacy_marked(row[p].as_str()),
            None => true,
        };
        if keep {
            let ghost r0 = views_of(raw@);
            let rec = Record {
                firstname: row[cm.first_name].clone(),
                lastname: row[cm.last_name].clone(),
                callsign: row[cm.callsign].clone(),
                phonenumber: row[cm.phone].clone(),
                isactive: active.contains(&row[cm.phone]),
            };
            proof {
                assert(rec@ == row_record(row@, fi, li, ci, pi, am));
            }
            raw.push(rec);
            proof {
                assert(views_of(raw@) =~= r0.push(row_record(row@, fi, li, ci, pi, am)));
            }
        }
        i = i + 1;
    }
    proof {
        assert(rows@.take(n as int) =~= rows@);
        lemma_last_match_in_range(headers@, "first_name"@);
        assert(built_rows(rows@, fi, li, ci, pi, pv, am) == built_of(rows@, headers@, am));
    }
    let sorted = sort_records(raw);
    Ok(sorted)
}

} // verus!
