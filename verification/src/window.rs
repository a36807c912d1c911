//! The main window's state, apart from the drawing: the saved list and the
//! zones its rows read in, the drag in flight, the view toggle and the
//! what-if time. Each method is what one event decides; `frame`, `row` and
//! `banner` are what a redraw decides.

use jiff::tz::TimeZone;
use jiff::Zoned;
use vstd::hash_map::StringHashMap;
use vstd::prelude::*;

use crate::clock::{local_face, local_hint, opt_text, reading, Reading, UNKNOWN};
use crate::picker::{offered, PickerState};
use crate::saved::{delete, lemma_reordered_contains, reorder, reordered, without};
use crate::search::{ambiguous_names, city_with_id, has_id, label_of, City, SearchIndex};
use crate::text::same_text;

verus! {

/// `TimeZone::get`, the lookup of a zone by name in this machine's time zone
/// database, with `None` where it fails. What it finds depends on the
/// machine, so nothing is stated of it.
#[verifier::external_body]
fn zone_named(name: &str) -> Option<TimeZone> {
    TimeZone::get(name).ok()
}

/// The ids of `ids` that name a city of `cities`, in order.
pub open spec fn known_ids(ids: Seq<u32>, cities: Seq<City>) -> Seq<u32>
    decreases ids.len(),
{
    if ids.len() == 0 {
        Seq::empty()
    } else {
        let rest = known_ids(ids.drop_last(), cities);
        if has_id(cities, ids.last()) {
            rest.push(ids.last())
        } else {
            rest
        }
    }
}

/// The zone names of the cities of `cities` that `saved` names.
pub open spec fn saved_zones(cities: Seq<City>, saved: Seq<u32>) -> Set<Seq<char>> {
    Set::new(
        |tz: Seq<char>|
            exists|k: int|
                0 <= k < saved.len() && has_id(cities, #[trigger] saved[k]) && city_with_id(
                    cities,
                    saved[k],
                ).timezone@ == tz,
    )
}

/// Naming one more city adds its zone, when the index knows it.
proof fn lemma_saved_zones_push(cities: Seq<City>, saved: Seq<u32>, id: u32)
    ensures
        saved_zones(cities, saved.push(id)) == if has_id(cities, id) {
            saved_zones(cities, saved).insert(city_with_id(cities, id).timezone@)
        } else {
            saved_zones(cities, saved)
        },
{
    let s2 = saved.push(id);
    let grown = saved_zones(cities, s2);
    let base = saved_zones(cities, saved);
    assert forall|tz: Seq<char>| base.contains(tz) implies grown.contains(tz) by {
        let k = choose|k: int|
            0 <= k < saved.len() && has_id(cities, #[trigger] saved[k]) && city_with_id(
                cities,
                saved[k],
            ).timezone@ == tz;
        assert(s2[k] == saved[k]);
    }
    assert forall|tz: Seq<char>| grown.contains(tz) implies base.contains(tz) || (has_id(cities, id)
        && tz == city_with_id(cities, id).timezone@) by {
        let k = choose|k: int|
            0 <= k < s2.len() && has_id(cities, #[trigger] s2[k]) && city_with_id(
                cities,
                s2[k],
            ).timezone@ == tz;
        if k < saved.len() {
            assert(s2[k] == saved[k]);
        }
    }
    if has_id(cities, id) {
        assert(s2[saved.len() as int] == id);
        assert(grown.contains(city_with_id(cities, id).timezone@));
        assert(grown =~= base.insert(city_with_id(cities, id).timezone@));
    } else {
        assert(grown =~= base);
    }
}

/// Lists that hold the same ids name the same zones.
proof fn lemma_saved_zones_same(cities: Seq<City>, s1: Seq<u32>, s2: Seq<u32>)
    requires
        forall|x: u32| #[trigger] s2.contains(x) <==> s1.contains(x),
    ensures
        saved_zones(cities, s1) == saved_zones(cities, s2),
{
    assert forall|tz: Seq<char>| saved_zones(cities, s1).contains(tz) implies saved_zones(cities, s2).contains(tz) by {
        let k = choose|k: int|
            0 <= k < s1.len() && has_id(cities, #[trigger] s1[k]) && city_with_id(cities, s1[k]).timezone@ == tz;
        assert(s1.contains(s1[k]));
        assert(s2.contains(s1[k]));
        let m = choose|m: int| 0 <= m < s2.len() && s2[m] == s1[k];
        assert(has_id(cities, s2[m]));
    }
    assert forall|tz: Seq<char>| saved_zones(cities, s2).contains(tz) implies saved_zones(cities, s1).contains(tz) by {
        let k = choose|k: int|
            0 <= k < s2.len() && has_id(cities, #[trigger] s2[k]) && city_with_id(cities, s2[k]).timezone@ == tz;
        assert(s2.contains(s2[k]));
        assert(s1.contains(s2[k]));
        let m = choose|m: int| 0 <= m < s1.len() && s1[m] == s2[k];
        assert(has_id(cities, s1[m]));
    }
    assert(saved_zones(cities, s1) =~= saved_zones(cities, s2));
}

/// The zones of the cities that `saved` names, looked up once each, so that
/// rows restored from disk show a time straight away.
pub fn zones_for(index: &SearchIndex, saved: &Vec<u32>) -> (r: StringHashMap<Option<TimeZone>>)
    ensures
        r@.dom() == saved_zones(index@, saved@),
{
    let mut zones: StringHashMap<Option<TimeZone>> = StringHashMap::new();
    let mut k: usize = 0;
    assert(saved_zones(index@, saved@.take(0)) =~= Set::<Seq<char>>::empty());
    while k < saved.len()
        invariant
            k <= saved@.len(),
            zones@.dom() == saved_zones(index@, saved@.take(k as int)),
        decreases saved@.len() - k,
    {
        proof {
            assert(saved@.take(k + 1) =~= saved@.take(k as int).push(saved@[k as int]));
            lemma_saved_zones_push(index@, saved@.take(k as int), saved@[k as int]);
        }
        if let Some(city) = index.city(saved[k]) {
            if !zones.contains_key(city.timezone.as_str()) {
                zones.insert(city.timezone.clone(), zone_named(city.timezone.as_str()));
            }
            assert(zones@.dom() =~= saved_zones(index@, saved@.take(k + 1)));
        }
        k = k + 1;
    }
    assert(saved@.take(saved@.len() as int) =~= saved@);
    zones
}

/// A what-if time in effect.
pub struct Pin {
    /// The row the time was typed into, by geonameid.
    pub anchor: u32,
    /// The instant every row reads from, held in home's zone.
    pub at: Zoned,
}

/// The main window's state.
pub struct Elsewhere {
    /// The cities the window can offer and show.
    pub index: SearchIndex,
    /// The search input's query and the results offered for it.
    pub picker: PickerState,
    /// The geonameids picked so far, oldest first.
    pub saved: Vec<u32>,
    /// The zones of the saved cities, looked up once each. A zone this
    /// machine's database does not know stays `None` rather than being looked
    /// up again every minute.
    pub zones: StringHashMap<Option<TimeZone>>,
    /// The geonameid a drag is carrying, while one is in flight.
    pub drag: Option<u32>,
    /// Whether the list is shown ordered by longitude rather than by hand. A
    /// view preference, deliberately not persisted.
    pub westward: bool,
    /// The what-if time in effect. `None` means the rows follow the real
    /// clock.
    pub pinned: Option<Pin>,
    /// The row whose time is being typed over.
    pub editing: Option<u32>,
}

/// What a redraw shows around the rows.
pub struct Frame {
    /// Whether the results panel floats under the input.
    pub results: bool,
    /// Whether the strip of buttons over the list shows.
    pub toolbar: bool,
    /// Whether it offers the way back to the live clock.
    pub back_to_now: bool,
    /// Whether it offers the west-to-east order.
    pub westward_button: bool,
    /// Whether the space under the list catches a drop meant for the end.
    pub drop_tail: bool,
    /// Whether the bin that deletes a dropped row shows.
    pub bin: bool,
}

/// What a redraw shows of one saved city.
pub struct RowView {
    /// How the city is named.
    pub label: String,
    /// Its local time, or the placeholder when its zone is unknown here.
    pub time: String,
    /// How its date differs from home's, when it does.
    pub day: Option<String>,
    /// Whether its zone resolved, so its time can anchor a what-if time.
    pub known: bool,
    /// Whether it can be picked up by its grip and moved.
    pub draggable: bool,
    /// Whether it is the row in flight, shown faded.
    pub dimmed: bool,
    /// Whether its time is being typed over.
    pub editing: bool,
    /// Whether its time is a what-if one.
    pub pinned: bool,
}

impl Elsewhere {
    /// Every saved city the index knows has had its zone looked up.
    pub open spec fn wf(&self) -> bool {
        saved_zones(self.index@, self.saved@).subset_of(self.zones@.dom())
    }

    /// The window over `index`, with the saved list `loaded` less the cities
    /// the index no longer has (a regenerated dataset may have dropped a city
    /// saved by an older run), and their zones looked up.
    pub fn new(index: SearchIndex, loaded: Vec<u32>) -> (r: Self)
        ensures
            r.index@ == index@,
            r.saved@ == known_ids(loaded@, index@),
            r.zones@.dom() == saved_zones(index@, r.saved@),
            r.wf(),
            r.picker.query@.len() == 0,
            r.picker.results@.len() == 0,
            r.picker.selected == 0,
            r.drag is None,
            !r.westward,
            r.pinned is None,
            r.editing is None,
    {
        let mut saved: Vec<u32> = Vec::new();
        let mut k: usize = 0;
        while k < loaded.len()
            invariant
                k <= loaded@.len(),
                saved@ == known_ids(loaded@.take(k as int), index@),
            decreases loaded@.len() - k,
        {
            proof {
                assert(loaded@.take(k + 1).drop_last() =~= loaded@.take(k as int));
            }
            if index.city(loaded[k]).is_some() {
                saved.push(loaded[k]);
            }
            k = k + 1;
        }
        assert(loaded@.take(loaded@.len() as int) =~= loaded@);
        let zones = zones_for(&index, &saved);
        Elsewhere {
            index,
            picker: PickerState::new(),
            saved,
            zones,
            drag: None,
            westward: false,
            pinned: None,
            editing: None,
        }
    }

    /// The input now reads `text`: searches again unless that is the text
    /// already searched for. Returns whether anything changed.
    pub fn search(&mut self, text: &str) -> (changed: bool)
        ensures
            changed == (text@ != old(self).picker.query@),
            !changed ==> *final(self) == *old(self),
            changed ==> final(self).picker.query@ == text@ && final(self).picker.results@ == offered(
                old(self).index,
                text@,
            ) && final(self).picker.selected == 0,
            final(self).index == old(self).index,
            final(self).saved == old(self).saved,
            final(self).zones == old(self).zones,
            final(self).drag == old(self).drag,
            final(self).westward == old(self).westward,
            final(self).pinned == old(self).pinned,
            final(self).editing == old(self).editing,
    {
        self.picker.search(&self.index, text)
    }

    /// Adds `geonameid` to the saved list unless it is there already, looking
    /// up its zone if no saved city has needed it yet, and starts the search
    /// over. Returns whether the list grew, in which case it is written back.
    pub fn save(&mut self, geonameid: u32) -> (added: bool)
        ensures
            added == !old(self).saved@.contains(geonameid),
            final(self).saved@ == if added {
                old(self).saved@.push(geonameid)
            } else {
                old(self).saved@
            },
            added && has_id(old(self).index@, geonameid) ==> final(self).zones@.dom()
                == old(self).zones@.dom().insert(
                city_with_id(old(self).index@, geonameid).timezone@,
            ),
            !(added && has_id(old(self).index@, geonameid)) ==> final(self).zones@
                == old(self).zones@,
            forall|tz: Seq<char>|
                old(self).zones@.contains_key(tz) ==> #[trigger] final(self).zones@[tz]
                    == old(self).zones@[tz],
            final(self).picker.query@.len() == 0,
            final(self).picker.results@.len() == 0,
            final(self).picker.selected == 0,
            final(self).index == old(self).index,
            final(self).drag == old(self).drag,
            final(self).westward == old(self).westward,
            final(self).pinned == old(self).pinned,
            final(self).editing == old(self).editing,
            old(self).wf() ==> final(self).wf(),
    {
        let ghost before = self.saved@;
        let added = crate::saved::add(&mut self.saved, geonameid);
        if added {
            if let Some(city) = self.index.city(geonameid) {
                if !self.zones.contains_key(city.timezone.as_str()) {
                    let zone = zone_named(city.timezone.as_str());
                    self.zones.insert(city.timezone.clone(), zone);
                }
                assert(self.zones@.dom() =~= old(self).zones@.dom().insert(
                    city_with_id(self.index@, geonameid).timezone@,
                ));
            }
        }
        proof {
            if added {
                lemma_saved_zones_push(self.index@, before, geonameid);
            }
        }
        self.picker.reset();
        added
    }

    /// Closes the results panel, keeping the query.
    pub fn dismiss(&mut self)
        ensures
            final(self).picker.query == old(self).picker.query,
            final(self).picker.results@.len() == 0,
            final(self).picker.selected == old(self).picker.selected,
            final(self).index == old(self).index,
            final(self).saved == old(self).saved,
            final(self).zones == old(self).zones,
            final(self).drag == old(self).drag,
            final(self).westward == old(self).westward,
            final(self).pinned == old(self).pinned,
            final(self).editing == old(self).editing,
    {
        self.picker.dismiss();
    }
    /// Drops `geonameid` from the saved list, closing the editor if it was
    /// open on that row. Returns whether it was, so the search input can
    /// take the focus back.
    pub fn delete(&mut self, geonameid: u32) -> (closed: bool)
        ensures
            final(self).saved@ == without(old(self).saved@, geonameid),
            closed == (old(self).editing == Some(geonameid)),
            final(self).editing == if closed {
                None
            } else {
                old(self).editing
            },
            final(self).index == old(self).index,
            final(self).picker == old(self).picker,
            final(self).zones == old(self).zones,
            final(self).drag == old(self).drag,
            final(self).westward == old(self).westward,
            final(self).pinned == old(self).pinned,
            old(self).wf() ==> final(self).wf(),
    {
        let ghost before = self.saved@;
        delete(&mut self.saved, geonameid);
        proof {
            lemma_without_zones(self.index@, before, geonameid);
        }
        let closed = match self.editing {
            Some(id) => id == geonameid,
            None => false,
        };
        if closed {
            self.editing = None;
        }
        closed
    }

    /// Opens the what-if editor on the time of row `geonameid`.
    pub fn edit(&mut self, geonameid: u32)
        ensures
            final(self).editing == Some(geonameid),
            final(self).index == old(self).index,
            final(self).picker == old(self).picker,
            final(self).saved == old(self).saved,
            final(self).zones == old(self).zones,
            final(self).drag == old(self).drag,
            final(self).westward == old(self).westward,
            final(self).pinned == old(self).pinned,
    {
        self.editing = Some(geonameid);
    }

    /// Enter in the editor: the what-if time, if any, stays; the editor goes.
    pub fn close_editor(&mut self)
        ensures
            final(self).editing is None,
            final(self).index == old(self).index,
            final(self).picker == old(self).picker,
            final(self).saved == old(self).saved,
            final(self).zones == old(self).zones,
            final(self).drag == old(self).drag,
            final(self).westward == old(self).westward,
            final(self).pinned == old(self).pinned,
    {
        self.editing = None;
    }

    /// Escape, or "back to now": the rows follow the real clock again, and
    /// the editor goes.
    pub fn unpin(&mut self)
        ensures
            final(self).pinned is None,
            final(self).editing is None,
            final(self).index == old(self).index,
            final(self).picker == old(self).picker,
            final(self).saved == old(self).saved,
            final(self).zones == old(self).zones,
            final(self).drag == old(self).drag,
            final(self).westward == old(self).westward,
    {
        self.pinned = None;
        self.editing = None;
    }

    /// Flips between the hand-arranged order and the west-to-east one.
    pub fn toggle_westward(&mut self)
        ensures
            final(self).westward == !old(self).westward,
            final(self).index == old(self).index,
            final(self).picker == old(self).picker,
            final(self).saved == old(self).saved,
            final(self).zones == old(self).zones,
            final(self).drag == old(self).drag,
            final(self).pinned == old(self).pinned,
            final(self).editing == old(self).editing,
    {
        self.westward = !self.westward;
    }

    /// A dragged row lands before the row `before`, or at the end without
    /// one; the drag is over either way. Returns whether the list changed, in
    /// which case it is written back.
    pub fn drop(&mut self, dragged: u32, before: Option<u32>) -> (changed: bool)
        ensures
            final(self).drag is None,
            final(self).saved@ == reordered(old(self).saved@, dragged, before),
            changed == (final(self).saved@ != old(self).saved@),
            final(self).index == old(self).index,
            final(self).picker == old(self).picker,
            final(self).zones == old(self).zones,
            final(self).westward == old(self).westward,
            final(self).pinned == old(self).pinned,
            final(self).editing == old(self).editing,
            old(self).wf() ==> final(self).wf(),
    {
        self.drag = None;
        let ghost before_list = self.saved@;
        let changed = reorder(&mut self.saved, dragged, before);
        proof {
            assert forall|x: u32| #[trigger] self.saved@.contains(x) <==> before_list.contains(x) by {
                lemma_reordered_contains(before_list, dragged, before, x);
            }
            lemma_saved_zones_same(self.index@, before_list, self.saved@);
        }
        changed
    }

    /// A row was picked up by its grip.
    pub fn start_drag(&mut self, geonameid: u32)
        ensures
            final(self).drag == Some(geonameid),
            final(self).index == old(self).index,
            final(self).picker == old(self).picker,
            final(self).saved == old(self).saved,
            final(self).zones == old(self).zones,
            final(self).westward == old(self).westward,
            final(self).pinned == old(self).pinned,
            final(self).editing == old(self).editing,
    {
        self.drag = Some(geonameid);
    }

    /// What a redraw shows around the rows, `dragging` telling whether a drag
    /// is under way. A drag that ended without a drop, however it ended, is
    /// forgotten here.
    pub fn frame(&mut self, dragging: bool) -> (r: Frame)
        ensures
            final(self).drag == if dragging {
                old(self).drag
            } else {
                None
            },
            r.results == (old(self).picker.results@.len() > 0),
            r.toolbar == (old(self).saved@.len() > 1 || old(self).pinned is Some),
            r.back_to_now == old(self).pinned is Some,
            r.westward_button == (old(self).saved@.len() > 1),
            r.drop_tail == (!old(self).westward && dragging && old(self).drag is Some),
            r.bin == (dragging && old(self).drag is Some),
            final(self).index == old(self).index,
            final(self).picker == old(self).picker,
            final(self).saved == old(self).saved,
            final(self).zones == old(self).zones,
            final(self).westward == old(self).westward,
            final(self).pinned == old(self).pinned,
            final(self).editing == old(self).editing,
    {
        if !dragging {
            self.drag = None;
        }
        let pinned = self.pinned.is_some();
        Frame {
            results: self.picker.results.len() > 0,
            toolbar: self.saved.len() > 1 || pinned,
            back_to_now: pinned,
            westward_button: self.saved.len() > 1,
            drop_tail: !self.westward && dragging && self.drag.is_some(),
            bin: dragging && self.drag.is_some(),
        }
    }

    /// The instant a redraw reads every row from: the what-if time while one
    /// is set, otherwise `clock`, the real time read once for the whole pass
    /// so the rows agree.
    pub fn instant<'a>(&'a self, clock: &'a Zoned) -> (r: &'a Zoned)
        ensures
            match self.pinned {
                Some(pin) => *r == pin.at,
                None => *r == *clock,
            },
    {
        match &self.pinned {
            Some(pin) => &pin.at,
            None => clock,
        }
    }

    /// The editor reads as the instant `at`: the rows follow that time,
    /// anchored to the row being edited. Without an editor open nothing
    /// changes. Returns whether the time was pinned.
    pub fn repin(&mut self, at: Zoned) -> (pinned: bool)
        ensures
            pinned == old(self).editing is Some,
            pinned ==> final(self).pinned == Some(Pin { anchor: old(self).editing->0, at }),
            !pinned ==> final(self).pinned == old(self).pinned,
            final(self).index == old(self).index,
            final(self).picker == old(self).picker,
            final(self).saved == old(self).saved,
            final(self).zones == old(self).zones,
            final(self).drag == old(self).drag,
            final(self).westward == old(self).westward,
            final(self).editing == old(self).editing,
    {
        match self.editing {
            Some(anchor) => {
                self.pinned = Some(Pin { anchor, at });
                true
            },
            None => false,
        }
    }

    /// The strip that says a what-if time is in force: which row it was
    /// typed into and what it reads there at the instant `now`. Only there
    /// while pinned to a city the index knows.
    pub fn banner(&self, now: &Zoned) -> (r: Option<String>)
        ensures
            r is Some <==> (self.pinned is Some && has_id(self.index@, self.pinned->0.anchor)),
            r matches Some(text) ==> {
                let c = city_with_id(self.index@, self.pinned->0.anchor);
                let known = self.zones@.contains_key(c.timezone@) && self.zones@[c.timezone@] is Some;
                &&& known ==> text@ == "viewing "@ + local_face(
                    *now,
                    self.zones@[c.timezone@]->0,
                ) + " in "@ + c.name@
                &&& !known ==> text@ == "viewing "@ + UNKNOWN@ + " in "@ + c.name@
            },
    {
        let pin = match &self.pinned {
            Some(p) => p,
            None => return None,
        };
        let city = match self.index.city(pin.anchor) {
            Some(c) => c,
            None => return None,
        };
        let time = match self.zones.get(city.timezone.as_str()) {
            Some(Some(zone)) => reading(now, zone).time,
            _ => String::from_str(UNKNOWN),
        };
        let mut text = String::from_str("viewing ");
        text.append(time.as_str());
        text.append(" in ");
        text.append(city.name.as_str());
        Some(text)
    }

    /// What a redraw shows of saved city `geonameid` at the instant `now`,
    /// `dragging` telling whether a drag is under way; nothing when the index
    /// does not know it.
    pub fn row(&self, now: &Zoned, geonameid: u32, dragging: bool) -> (r: Option<RowView>)
        ensures
            r is None <==> !has_id(self.index@, geonameid),
            r matches Some(v) ==> {
                let c = city_with_id(self.index@, geonameid);
                &&& v.label@ == label_of(c, ambiguous_names(self.index@).contains(c.name@))
                &&& v.known == (self.zones@.contains_key(c.timezone@)
                    && self.zones@[c.timezone@] is Some)
                &&& !v.known ==> v.time@ == UNKNOWN@ && v.day is None
                &&& v.known ==> v.time@ == local_face(*now, self.zones@[c.timezone@]->0)
                &&& v.known ==> opt_text(v.day) == local_hint(*now, self.zones@[c.timezone@]->0)
                &&& v.draggable == !self.westward
                &&& v.dimmed == (dragging && self.drag == Some(geonameid))
                &&& v.editing == (self.editing == Some(geonameid))
                &&& v.pinned == self.pinned is Some
            },
    {
        let city = match self.index.city(geonameid) {
            Some(c) => c,
            None => return None,
        };
        let label = self.index.label(city);
        let zone: Option<&TimeZone> = match self.zones.get(city.timezone.as_str()) {
            Some(Some(z)) => Some(z),
            _ => None,
        };
        let (time, day, known) = match zone {
            Some(z) => {
                let r: Reading = reading(now, z);
                (r.time, r.day, true)
            },
            None => (String::from_str(UNKNOWN), None, false),
        };
        Some(
            RowView {
                label,
                time,
                day,
                known,
                draggable: !self.westward,
                dimmed: dragging && self.drag == Some(geonameid),
                editing: self.editing == Some(geonameid),
                pinned: self.pinned.is_some(),
            },
        )
    }
}

/// Dropping an id keeps only zones the rest still name.
proof fn lemma_without_zones(cities: Seq<City>, saved: Seq<u32>, id: u32)
    ensures
        saved_zones(cities, without(saved, id)).subset_of(saved_zones(cities, saved)),
    decreases saved.len(),
{
    if saved.len() > 0 {
        let rest = saved.drop_last();
        assert(saved =~= rest.push(saved.last()));
        lemma_without_zones(cities, rest, id);
        lemma_saved_zones_push(cities, rest, saved.last());
        if saved.last() != id {
            lemma_saved_zones_push(cities, without(rest, id), saved.last());
        }
    } else {
        assert(without(saved, id) =~= saved);
    }
}

/// The mono faces the time column would read in, best first.
pub open spec fn mono_faces() -> Seq<Seq<char>> {
    seq![
        "JetBrains Mono"@,
        "IBM Plex Mono"@,
        "SF Mono"@,
        "Menlo"@,
        "Cascadia Mono"@,
        "Adwaita Mono"@,
        "DejaVu Sans Mono"@,
        "Liberation Mono"@,
    ]
}

/// Mono face number `k`, best first.
fn mono_face_at(k: usize) -> (r: &'static str)
    requires
        k < 8,
    ensures
        r@ == mono_faces()[k as int],
{
    match k {
        0 => "JetBrains Mono",
        1 => "IBM Plex Mono",
        2 => "SF Mono",
        3 => "Menlo",
        4 => "Cascadia Mono",
        5 => "Adwaita Mono",
        6 => "DejaVu Sans Mono",
        _ => "Liberation Mono",
    }
}

/// Some name of `installed` reads `family`.
pub open spec fn is_installed(installed: Seq<String>, family: Seq<char>) -> bool {
    exists|i: int| 0 <= i < installed.len() && (#[trigger] installed[i])@ == family
}

/// The face the time column reads in: the best of the mono faces among the
/// font families the system has, by exact name, or none. Equal-width digits
/// keep a reading from shifting as it ticks.
pub fn mono_face(installed: &Vec<String>) -> (r: Option<&'static str>)
    ensures
        match r {
            Some(f) => exists|k: int|
                0 <= k < 8 && f@ == mono_faces()[k] && is_installed(installed@, f@) && forall|j: int|
                    0 <= j < k ==> !is_installed(installed@, #[trigger] mono_faces()[j]),
            None => forall|j: int|
                0 <= j < 8 ==> !is_installed(installed@, #[trigger] mono_faces()[j]),
        },
{
    let mut k: usize = 0;
    while k < 8
        invariant
            k <= 8,
            forall|j: int| 0 <= j < k ==> !is_installed(installed@, #[trigger] mono_faces()[j]),
        decreases 8 - k,
    {
        let family = mono_face_at(k);
        let mut i: usize = 0;
        while i < installed.len()
            invariant
                i <= installed@.len(),
                k < 8,
                family@ == mono_faces()[k as int],
                forall|j: int| 0 <= j < k ==> !is_installed(installed@, #[trigger] mono_faces()[j]),
                forall|m: int| 0 <= m < i ==> (#[trigger] installed@[m])@ != family@,
            decreases installed@.len() - i,
        {
            if same_text(installed[i].as_str(), family) {
                proof {
                    assert(installed@[i as int]@ == family@);
                    assert(is_installed(installed@, family@));
                    assert(family@ == mono_faces()[k as int]);
                }
                return Some(family);
            }
            i = i + 1;
        }
        assert(!is_installed(installed@, mono_faces()[k as int]));
        k = k + 1;
    }
    None
}

} // verus!
