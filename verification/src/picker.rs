//! The state behind the search picker: the query last searched for, the
//! results offered for it, and which one the keyboard has highlighted. The
//! window owns the text input and the drawing; these transitions are the
//! decisions it makes on each keystroke and key.

use vstd::prelude::*;

use crate::search::{ambiguous_names, best_of, city_with_id, has_id, label_of, normalized, City, SearchIndex};
use crate::text::same_text;

verus! {

/// How many search results the picker offers at a time.
pub const RESULTS: usize = 8;

/// The picker's state.
pub struct PickerState {
    /// The last text seen in the input, to spot the keystrokes among the
    /// input's other notifications.
    pub query: String,
    /// The geonameids currently offered, best first.
    pub results: Vec<u32>,
    /// Which result is highlighted, as an index into `results`. Only
    /// meaningful while `results` is non-empty.
    pub selected: usize,
}

/// A line of the results panel.
pub struct ResultRow {
    /// The city it picks.
    pub geonameid: u32,
    /// How the city is named.
    pub label: String,
    /// Whether the keyboard highlight is on it.
    pub highlighted: bool,
}

/// The lines the panel lists for the results `ids`, the one at position
/// `selected` highlighted: a line for each result the index knows, labelled
/// as the picker labels cities.
pub open spec fn result_rows(cities: Seq<City>, ids: Seq<u32>, selected: int) -> Seq<
    (u32, Seq<char>, bool),
>
    decreases ids.len(),
{
    if ids.len() == 0 {
        Seq::empty()
    } else {
        let rest = result_rows(cities, ids.drop_last(), selected);
        let id = ids.last();
        if has_id(cities, id) {
            let c = city_with_id(cities, id);
            rest.push(
                (id, label_of(c, ambiguous_names(cities).contains(c.name@)), ids.len() - 1 == selected),
            )
        } else {
            rest
        }
    }
}

/// More than one city of `cities` carries the name `name`.
pub open spec fn shared_name(cities: Seq<City>, name: Seq<char>) -> bool {
    exists|i: int, j: int|
        0 <= i < cities.len() && 0 <= j < cities.len() && i != j && #[trigger] cities[i].name@ == name
            && #[trigger] cities[j].name@ == name
}

/// Each line of the results panel is for a result the index knows, and is
/// labelled "Name, Admin1, Country" when more than one city carries the name
/// and the city has a region, and "Name, Country" otherwise; the highlighted
/// line is the result at position `selected`.
pub proof fn lemma_result_row_labels(cities: Seq<City>, ids: Seq<u32>, selected: int)
    ensures
        forall|k: int|
            0 <= k < result_rows(cities, ids, selected).len() ==> {
                let row = #[trigger] result_rows(cities, ids, selected)[k];
                let c = city_with_id(cities, row.0);
                &&& has_id(cities, row.0)
                &&& ids.contains(row.0)
                &&& row.1 == if shared_name(cities, c.name@) && c.admin1@.len() > 0 {
                    c.name@ + seq![',', ' '] + c.admin1@ + seq![',', ' '] + c.country@
                } else {
                    c.name@ + seq![',', ' '] + c.country@
                }
                &&& row.2 ==> 0 <= selected < ids.len() && ids[selected] == row.0
            },
    decreases ids.len(),
{
    let rows = result_rows(cities, ids, selected);
    if ids.len() > 0 {
        let init = ids.drop_last();
        lemma_result_row_labels(cities, init, selected);
        let prev = result_rows(cities, init, selected);
        assert forall|k: int| 0 <= k < rows.len() implies {
            let row = #[trigger] rows[k];
            let c = city_with_id(cities, row.0);
            &&& has_id(cities, row.0)
            &&& ids.contains(row.0)
            &&& row.1 == if shared_name(cities, c.name@) && c.admin1@.len() > 0 {
                c.name@ + seq![',', ' '] + c.admin1@ + seq![',', ' '] + c.country@
            } else {
                c.name@ + seq![',', ' '] + c.country@
            }
            &&& row.2 ==> 0 <= selected < ids.len() && ids[selected] == row.0
        } by {
            let row = rows[k];
            let c = city_with_id(cities, row.0);
            if k < prev.len() {
                assert(rows[k] == prev[k]);
                let m = choose|m: int| 0 <= m < init.len() && init[m] == row.0;
                assert(ids[m] == row.0);
                if row.2 {
                    assert(init[selected] == row.0);
                    assert(ids[selected] == init[selected]);
                }
            } else {
                assert(row.0 == ids.last());
                assert(ids[ids.len() - 1] == row.0);
            }
            assert(shared_name(cities, c.name@) <==> ambiguous_names(cities).contains(c.name@)) by {
                if shared_name(cities, c.name@) {
                    let (i, j) = choose|i: int, j: int|
                        0 <= i < cities.len() && 0 <= j < cities.len() && i != j
                            && #[trigger] cities[i].name@ == c.name@ && #[trigger] cities[j].name@
                            == c.name@;
                    if i < j {
                        assert(ambiguous_names(cities).contains(c.name@));
                    } else {
                        assert(ambiguous_names(cities).contains(c.name@));
                    }
                }
            }
        }
    }
}

/// Lines of the panel, seen as plain values.
pub open spec fn row_values(rows: Seq<ResultRow>) -> Seq<(u32, Seq<char>, bool)> {
    rows.map_values(|r: ResultRow| (r.geonameid, r.label@, r.highlighted))
}

/// The geonameids of the results `search` offers for `query`.
pub open spec fn offered(index: SearchIndex, query: Seq<char>) -> Seq<u32> {
    let q = normalized(query);
    if q.len() == 0 {
        Seq::empty()
    } else {
        best_of(index@, q, RESULTS as nat).map_values(|i: int| index@[i].geonameid)
    }
}

impl PickerState {
    /// An empty input and no results.
    pub fn new() -> (r: Self)
        ensures
            r.query@.len() == 0,
            r.results@.len() == 0,
            r.selected == 0,
    {
        PickerState { query: String::new(), results: Vec::new(), selected: 0 }
    }

    /// The input now reads `text`. Unless that is the text already searched
    /// for (the input also reports cursor moves), searches again, and the
    /// highlight goes back to the top hit. Returns whether anything changed.
    pub fn search(&mut self, index: &SearchIndex, text: &str) -> (changed: bool)
        ensures
            changed == (text@ != old(self).query@),
            !changed ==> *final(self) == *old(self),
            changed ==> final(self).query@ == text@ && final(self).results@ == offered(*index, text@)
                && final(self).selected == 0,
    {
        if same_text(self.query.as_str(), text) {
            return false;
        }
        let found = index.search(text, RESULTS);
        let mut ids: Vec<u32> = Vec::new();
        let mut k: usize = 0;
        while k < found.len()
            invariant
                k <= found@.len(),
                ids@.len() == k,
                forall|m: int| 0 <= m < k ==> ids@[m] == found@[m].geonameid,
            decreases found@.len() - k,
        {
            ids.push(found[k].geonameid);
            k = k + 1;
        }
        proof {
            let q = normalized(text@);
            if q.len() > 0 {
                assert(ids@ =~= offered(*index, text@));
            } else {
                assert(ids@ =~= offered(*index, text@));
            }
        }
        self.query = String::from_str(text);
        self.results = ids;
        self.selected = 0;
        true
    }

    /// Closes the results panel. `query` stays as it is: `search` re-runs
    /// only when the input text differs from it, so clearing it would let the
    /// next input notification reopen the panel.
    pub fn dismiss(&mut self)
        ensures
            final(self).query == old(self).query,
            final(self).results@.len() == 0,
            final(self).selected == old(self).selected,
    {
        self.results.clear();
    }

    /// Back to an empty query and no results; the window empties the input
    /// alongside, so the two stay in step.
    pub fn reset(&mut self)
        ensures
            final(self).query@.len() == 0,
            final(self).results@.len() == 0,
            final(self).selected == 0,
    {
        self.query = String::new();
        self.results.clear();
        self.selected = 0;
    }

    /// Enter: the highlighted result, if there is one, is picked, and the
    /// picker starts over.
    pub fn confirm(&mut self) -> (picked: Option<u32>)
        ensures
            old(self).selected < old(self).results@.len() ==> picked == Some(
                old(self).results@[old(self).selected as int],
            ) && final(self).query@.len() == 0 && final(self).results@.len() == 0
                && final(self).selected == 0,
            old(self).selected >= old(self).results@.len() ==> picked is None && *final(self) == *old(
                self,
            ),
    {
        if self.selected < self.results.len() {
            let geonameid = self.results[self.selected];
            self.reset();
            Some(geonameid)
        } else {
            None
        }
    }

    /// Escape: clears the query and results. With nothing to clear it
    /// returns `false`, and the window passes the key on.
    pub fn clear(&mut self) -> (handled: bool)
        ensures
            handled == !(old(self).query@.len() == 0 && old(self).results@.len() == 0),
            handled ==> final(self).query@.len() == 0 && final(self).results@.len() == 0
                && final(self).selected == 0,
            !handled ==> *final(self) == *old(self),
    {
        if self.query.as_str().is_empty() && self.results.is_empty() {
            return false;
        }
        self.reset();
        true
    }

    /// Up: the highlight moves up one, stopping at the top. Returns whether
    /// there were results to move through.
    pub fn move_up(&mut self) -> (moved: bool)
        ensures
            moved == (old(self).results@.len() > 0),
            final(self).query == old(self).query,
            final(self).results == old(self).results,
            final(self).selected == if moved && old(self).selected > 0 {
                (old(self).selected - 1) as usize
            } else {
                old(self).selected
            },
    {
        if self.results.is_empty() {
            return false;
        }
        self.selected = self.selected.saturating_sub(1);
        true
    }

    /// Down: the highlight moves down one, stopping at the last result.
    /// Returns whether there were results to move through.
    pub fn move_down(&mut self) -> (moved: bool)
        ensures
            moved == (old(self).results@.len() > 0),
            final(self).query == old(self).query,
            final(self).results == old(self).results,
            moved ==> final(self).selected == if old(self).selected + 1 < old(self).results@.len() {
                (old(self).selected + 1) as usize
            } else {
                (old(self).results@.len() - 1) as usize
            },
            !moved ==> final(self).selected == old(self).selected,
    {
        if self.results.is_empty() {
            return false;
        }
        let last = self.results.len() - 1;
        let next = if self.selected < last {
            self.selected + 1
        } else {
            last
        };
        self.selected = next;
        true
    }
    /// The lines of the results panel, which shows while there are any.
    pub fn rows(&self, index: &SearchIndex) -> (r: Vec<ResultRow>)
        ensures
            row_values(r@) == result_rows(index@, self.results@, self.selected as int),
    {
        let mut out: Vec<ResultRow> = Vec::new();
        let mut k: usize = 0;
        while k < self.results.len()
            invariant
                k <= self.results@.len(),
                row_values(out@) == result_rows(index@, self.results@.take(k as int), self.selected as int),
            decreases self.results@.len() - k,
        {
            let id = self.results[k];
            let ghost before = out@;
            proof {
                let t = self.results@.take(k + 1);
                assert(t.drop_last() =~= self.results@.take(k as int));
                assert(t.last() == id);
                assert(t.len() - 1 == k);
            }
            if let Some(city) = index.city(id) {
                let row = ResultRow { geonameid: id, label: index.label(city), highlighted: k == self.selected };
                out.push(row);
                proof {
                    assert(row_values(out@) =~= row_values(before).push((id, row.label@, row.highlighted)));
                }
            }
            k = k + 1;
        }
        assert(self.results@.take(self.results@.len() as int) =~= self.results@);
        out
    }
}

} // verus!
