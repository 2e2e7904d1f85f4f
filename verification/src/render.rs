//! The plan by which the pixels of a frame are handed out as units of work,
//! and the collector that puts the finished pixels into the frame buffer,
//! each of them once, in whatever order they arrive.

use crate::color::Rgb;
use crate::image::{binary_pixmap, lemma_index_in_range, pixel_index, ImagePpm, Raster};
use vstd::arithmetic::div_mod::{lemma_fundamental_div_mod, lemma_fundamental_div_mod_converse};
use vstd::prelude::*;

verus! {

/// Whether `p`, a column and a row, is a place of a frame of `width` by
/// `height` pixels.
pub open spec fn in_frame(width: u32, height: u32, p: (u32, u32)) -> bool {
    p.0 < width && p.1 < height
}

/// The places of a frame.
pub open spec fn frame(width: u32, height: u32) -> Set<(u32, u32)> {
    Set::new(|p: (u32, u32)| in_frame(width, height, p))
}

/// The place that stands at index `k` of a frame of the given width.
pub open spec fn place_at(width: u32, k: int) -> (u32, u32) {
    ((k % (width as int)) as u32, (k / (width as int)) as u32)
}

/// One unit of work: the places of row `y`, from left to right.
pub open spec fn row_places(width: u32, y: u32) -> Seq<(u32, u32)> {
    Seq::new(width as nat, |x: int| (x as u32, y))
}

/// All the work of a frame: its rows from row 0 up, one after the other.
pub open spec fn plan(width: u32, height: u32) -> Seq<(u32, u32)> {
    Seq::new(width as nat * height as nat, |k: int| place_at(width, k))
}

/// A place of the frame stands at its index, and nowhere else.
pub proof fn lemma_place_at_index(width: u32, height: u32, x: u32, y: u32)
    requires
        x < width,
        y < height,
    ensures
        0 <= pixel_index(width, x, y) < width as nat * height as nat,
        place_at(width, pixel_index(width, x, y)) == (x, y),
{
    lemma_index_in_range(width, height, x, y);
    lemma_fundamental_div_mod_converse(
        pixel_index(width, x, y),
        width as int,
        y as int,
        x as int,
    );
}

/// At each index of the frame stands a place of the frame, which has that
/// index.
pub proof fn lemma_index_of_place_at(width: u32, height: u32, k: int)
    requires
        0 <= k < width as nat * height as nat,
    ensures
        in_frame(width, height, place_at(width, k)),
        pixel_index(width, place_at(width, k).0, place_at(width, k).1) == k,
{
    let w = width as int;
    assert(w > 0) by (nonlinear_arith)
        requires
            0 <= k < w * height,
            0 <= w,
    ;
    lemma_fundamental_div_mod(k, w);
    assert(0 <= k % w < w);
    assert(0 <= k / w < height) by (nonlinear_arith)
        requires
            0 <= k < w * height,
            k == w * (k / w) + k % w,
            0 <= k % w < w,
    ;
    assert(w * (k / w) == (k / w) * w) by (nonlinear_arith);
}

/// The plan of a frame names every place of the frame, each of them once,
/// and nothing else.
pub proof fn lemma_plan_covers(width: u32, height: u32)
    ensures
        plan(width, height).len() == width as nat * height as nat,
        plan(width, height).no_duplicates(),
        forall|k: int|
            0 <= k < plan(width, height).len() ==> in_frame(
                width,
                height,
                #[trigger] plan(width, height)[k],
            ),
        forall|p: (u32, u32)| #[trigger]
            in_frame(width, height, p) ==> plan(width, height).contains(p),
        plan(width, height).to_set() == frame(width, height),
        frame(width, height).finite(),
        frame(width, height).len() == width as nat * height as nat,
{
    let s = plan(width, height);
    assert forall|k: int| 0 <= k < s.len() implies in_frame(width, height, #[trigger] s[k]) by {
        lemma_index_of_place_at(width, height, k);
    }
    assert forall|i: int, j: int| 0 <= i < s.len() && 0 <= j < s.len() && i != j implies s[i]
        != s[j] by {
        lemma_index_of_place_at(width, height, i);
        lemma_index_of_place_at(width, height, j);
    }
    assert forall|p: (u32, u32)| #[trigger] in_frame(width, height, p) implies s.contains(p) by {
        lemma_place_at_index(width, height, p.0, p.1);
        assert(s[pixel_index(width, p.0, p.1)] == p);
    }
    assert(s.to_set() =~= frame(width, height));
    vstd::seq_lib::seq_to_set_is_finite(s);
    s.unique_seq_to_set();
}

/// The rows of a frame up to row `height`, one after the other.
pub open spec fn rows(width: u32, height: u32) -> Seq<(u32, u32)>
    decreases height,
{
    if height == 0 {
        Seq::empty()
    } else {
        rows(width, (height - 1) as u32) + row_places(width, (height - 1) as u32)
    }
}

/// The plan is made of the units of work: it is the rows of the frame, one
/// after the other.
pub proof fn lemma_plan_is_rows(width: u32, height: u32)
    ensures
        plan(width, height) == rows(width, height),
    decreases height,
{
    if height == 0 {
        assert(plan(width, height) =~= rows(width, height));
    } else {
        let below = (height - 1) as u32;
        lemma_plan_is_rows(width, below);
        let head = plan(width, below);
        let row = row_places(width, below);
        assert(width as nat * height as nat == width as nat * below as nat + width as nat)
            by (nonlinear_arith)
            requires
                height == below + 1,
        ;
        assert forall|k: int| 0 <= k < plan(width, height).len() implies plan(width, height)[k] == (
            head + row
        )[k] by {
            if k >= head.len() {
                let x = (k - head.len()) as u32;
                lemma_place_at_index(width, height, x, below);
                assert(pixel_index(width, x, below) == k) by (nonlinear_arith)
                    requires
                        k == width as nat * below as nat + x,
                        pixel_index(width, x, below) == below as int * width as int + x as int,
                ;
            }
        }
        assert(plan(width, height) =~= head + row);
    }
}

/// However the places of the plan are reordered, they are as many as the
/// frame has places, no two of them are the same, each is a place of the
/// frame, and each place of the frame is among them.
pub proof fn lemma_any_order_covers(width: u32, height: u32, received: Seq<(u32, u32)>)
    requires
        received.to_multiset() == plan(width, height).to_multiset(),
    ensures
        received.len() == width as nat * height as nat,
        received.no_duplicates(),
        forall|i: int|
            0 <= i < received.len() ==> in_frame(width, height, #[trigger] received[i]),
        forall|p: (u32, u32)| #[trigger] in_frame(width, height, p) ==> received.contains(p),
        received.to_set() == frame(width, height),
{
    let s = plan(width, height);
    lemma_plan_covers(width, height);
    vstd::seq_lib::to_multiset_len(s);
    vstd::seq_lib::to_multiset_len(received);
    s.lemma_multiset_has_no_duplicates();
    received.lemma_multiset_has_no_duplicates_conv();
    assert forall|p: (u32, u32)| received.contains(p) <==> s.contains(p) by {
        vstd::seq_lib::to_multiset_contains(s, p);
        vstd::seq_lib::to_multiset_contains(received, p);
    }
    assert forall|i: int| 0 <= i < received.len() implies in_frame(
        width,
        height,
        #[trigger] received[i],
    ) by {
        assert(received.contains(received[i]));
        assert(s.to_set().contains(received[i]));
    }
    assert forall|p: (u32, u32)| #[trigger] in_frame(width, height, p) implies received.contains(
        p,
    ) by {
        assert(s.contains(p));
    }
    assert(received.to_set() =~= frame(width, height));
}

/// The places of row `y`, from left to right: one unit of work.
pub fn row_pixels(width: u32, y: u32) -> (row: Vec<(u32, u32)>)
    ensures
        row@ == row_places(width, y),
{
    let mut row: Vec<(u32, u32)> = Vec::new();
    let mut x: u32 = 0;
    while x < width
        invariant
            x <= width,
            row@ == row_places(x, y),
        decreases width - x,
    {
        row.push((x, y));
        assert(row@ =~= row_places((x + 1) as u32, y));
        x = x + 1;
    }
    row
}

/// What a collector holds: the raster as far as it is filled, and the places
/// whose pixels have arrived.
pub ghost struct Collected {
    pub raster: Raster,
    pub seen: Set<(u32, u32)>,
}

impl Collected {
    /// The raster has a pixel for each place, and only places of the frame
    /// have been seen.
    pub open spec fn wf(self) -> bool {
        &&& self.raster.wf()
        &&& self.seen.finite()
        &&& self.seen.subset_of(frame(self.raster.width, self.raster.height))
    }

    /// A black frame of which nothing has been seen yet.
    pub open spec fn start(width: u32, height: u32) -> Collected {
        Collected { raster: Raster::black(width, height), seen: Set::empty() }
    }

    /// Whether a pixel for column `x` of row `y` is taken: the place is in
    /// the frame and has not been seen.
    pub open spec fn accepts(self, x: u32, y: u32) -> bool {
        self.raster.contains(x, y) && !self.seen.contains((x, y))
    }

    /// What the arrival of the pixel `t.2` for column `t.0` of row `t.1`
    /// makes of the collection. A pixel that is not taken changes nothing.
    pub open spec fn receive(self, t: (u32, u32, Rgb)) -> Collected {
        if self.accepts(t.0, t.1) {
            Collected { raster: self.raster.set(t.0, t.1, t.2), seen: self.seen.insert((t.0, t.1)) }
        } else {
            self
        }
    }

    /// What the arrival of `tuples`, one after the other, makes of the
    /// collection.
    pub open spec fn collect(self, tuples: Seq<(u32, u32, Rgb)>) -> Collected
        decreases tuples.len(),
    {
        if tuples.len() == 0 {
            self
        } else {
            self.collect(tuples.drop_last()).receive(tuples.last())
        }
    }

    /// Every place of the frame has been seen.
    pub open spec fn complete(self) -> bool {
        self.seen == frame(self.raster.width, self.raster.height)
    }

    /// How many pixels lie between two marks of progress: a fiftieth of the
    /// frame.
    pub open spec fn period(self) -> nat {
        (self.raster.width as nat * self.raster.height as nat) / 50
    }

    /// Whether a mark of progress is due: the number of pixels seen is a
    /// multiple of the period. A frame of fewer than fifty pixels has none.
    pub open spec fn progress_due(self) -> bool {
        self.period() > 0 && self.seen.len() % self.period() == 0
    }
}

/// The answer to a pixel that arrived.
#[derive(Clone, Copy, Debug, PartialEq, Eq, Structural)]
pub enum Receipt {
    /// The pixel was put into the frame; `progress` says whether a mark of
    /// progress is due.
    Stored { progress: bool },
    /// A pixel for that place had arrived before; this one was dropped.
    Duplicate,
}

/// Puts finished pixels into a frame buffer, each place once.
pub struct Aggregator {
    image: ImagePpm,
    seen: Vec<bool>,
    count: usize,
}

impl View for Aggregator {
    type V = Collected;

    closed spec fn view(&self) -> Collected {
        Collected {
            raster: self.image@,
            seen: Set::new(
                |p: (u32, u32)|
                    in_frame(self.image@.width, self.image@.height, p) && self.seen@[pixel_index(
                        self.image@.width,
                        p.0,
                        p.1,
                    )],
            ),
        }
    }
}

impl Aggregator {
    /// The collector is sound: it has counted what it has seen.
    pub closed spec fn wf(&self) -> bool {
        &&& self@.wf()
        &&& self.seen@.len() == self.image@.pixels.len()
        &&& self.count == self@.seen.len()
    }

    /// A collector for a frame of `width` by `height` pixels that has seen
    /// nothing yet.
    pub fn new(width: u32, height: u32) -> (r: Aggregator)
        requires
            width as nat * height as nat <= usize::MAX,
        ensures
            r.wf(),
            r@ == Collected::start(width, height),
    {
        let image = ImagePpm::new(width, height);
        let n: usize = (width as usize) * (height as usize);
        let mut seen: Vec<bool> = Vec::new();
        let mut i: usize = 0;
        while i < n
            invariant
                i <= n,
                seen@.len() == i,
                forall|j: int| 0 <= j < i ==> !seen@[j],
            decreases n - i,
        {
            seen.push(false);
            i = i + 1;
        }
        let r = Aggregator { image, seen, count: 0 };
        proof {
            assert forall|p: (u32, u32)| !r@.seen.contains(p) by {
                if in_frame(width, height, p) {
                    lemma_index_in_range(width, height, p.0, p.1);
                }
            }
            assert(r@.seen =~= Set::<(u32, u32)>::empty());
        }
        r
    }

    /// Takes the pixel `c` for column `x` of row `y`, unless one has arrived
    /// for that place before.
    pub fn receive(&mut self, x: u32, y: u32, c: Rgb) -> (r: Receipt)
        requires
            old(self).wf(),
            old(self)@.raster.contains(x, y),
        ensures
            final(self).wf(),
            final(self)@.wf(),
            final(self)@ == old(self)@.receive((x, y, c)),
            r == if old(self)@.accepts(x, y) {
                (Receipt::Stored { progress: final(self)@.progress_due() })
            } else {
                Receipt::Duplicate
            },
    {
        let index = self.image.index_of(x, y);
        let ghost width = self.image@.width;
        let ghost height = self.image@.height;
        assert(self@.seen.contains((x, y)) == self.seen@[index as int]);
        if self.seen[index] {
            return Receipt::Duplicate;
        }
        self.image.set_pixel(x, y, c);
        self.seen.set(index, true);
        proof {
            assert forall|p: (u32, u32)|
                self@.seen.contains(p) <==> old(self)@.seen.insert((x, y)).contains(p) by {
                if in_frame(width, height, p) {
                    lemma_place_at_index(width, height, p.0, p.1);
                    lemma_place_at_index(width, height, x, y);
                }
            }
            assert(self@.seen =~= old(self)@.seen.insert((x, y)));
            lemma_plan_covers(width, height);
            vstd::set_lib::lemma_len_subset(self@.seen, frame(width, height));
            assert(self@.seen.len() == old(self)@.seen.len() + 1);
        }
        let total: usize = self.seen.len();
        assert(self.count < total);
        self.count = self.count + 1;
        let period: usize = total / 50;
        Receipt::Stored { progress: period > 0 && self.count % period == 0 }
    }

    /// How many pixels have been put into the frame.
    pub fn received(&self) -> (n: usize)
        requires
            self.wf(),
        ensures
            n == self@.seen.len(),
    {
        self.count
    }

    /// Whether the frame is full: a pixel has arrived for every place.
    pub fn is_complete(&self) -> (r: bool)
        requires
            self.wf(),
        ensures
            r == self@.complete(),
            r == (self@.seen.len() == self@.raster.width as nat * self@.raster.height as nat),
    {
        proof {
            let places = frame(self@.raster.width, self@.raster.height);
            lemma_plan_covers(self@.raster.width, self@.raster.height);
            if self@.seen.len() == places.len() {
                vstd::set_lib::lemma_subset_equality(self@.seen, places);
            }
        }
        self.count == self.seen.len()
    }

    /// The frame buffer as far as it has been filled.
    pub fn into_image(self) -> (img: ImagePpm)
        requires
            self.wf(),
        ensures
            img@ == self@.raster,
            img@.wf(),
    {
        self.image
    }
}

/// The places for which `tuples` bring a pixel, in the order of arrival.
pub open spec fn places_of(tuples: Seq<(u32, u32, Rgb)>) -> Seq<(u32, u32)> {
    Seq::new(tuples.len(), |i: int| (tuples[i].0, tuples[i].1))
}

/// A pixel that is taken adds its place to those seen and changes that place
/// of the raster alone.
pub proof fn lemma_receive(c: Collected, t: (u32, u32, Rgb))
    requires
        c.wf(),
        c.accepts(t.0, t.1),
    ensures
        c.receive(t).wf(),
        c.receive(t).raster.width == c.raster.width,
        c.receive(t).raster.height == c.raster.height,
        c.receive(t).seen == c.seen.insert((t.0, t.1)),
        c.receive(t).seen.len() == c.seen.len() + 1,
        c.receive(t).raster.pixel(t.0, t.1) == t.2,
        forall|x: u32, y: u32|
            c.raster.contains(x, y) && (x, y) != (t.0, t.1) ==> #[trigger] c.receive(
                t,
            ).raster.pixel(x, y) == c.raster.pixel(x, y),
{
    let width = c.raster.width;
    let height = c.raster.height;
    lemma_place_at_index(width, height, t.0, t.1);
    assert forall|x: u32, y: u32|
        c.raster.contains(x, y) && (x, y) != (t.0, t.1) implies #[trigger] c.receive(
        t,
    ).raster.pixel(x, y) == c.raster.pixel(x, y) by {
        lemma_place_at_index(width, height, x, y);
    }
}

/// A place of the first `n` of a run of places is a place of the run.
proof fn lemma_places_prefix(tuples: Seq<(u32, u32, Rgb)>, p: (u32, u32))
    requires
        tuples.len() > 0,
    ensures
        places_of(tuples).contains(p) <==> places_of(tuples.drop_last()).contains(p) || p == (
            tuples.last().0,
            tuples.last().1,
        ),
{
    let places = places_of(tuples);
    let before = places_of(tuples.drop_last());
    let n = tuples.len() - 1;
    if places.contains(p) {
        let j = choose|j: int| 0 <= j < places.len() && places[j] == p;
        if j < n {
            assert(before[j] == p);
        }
    }
    if before.contains(p) {
        let j = choose|j: int| 0 <= j < before.len() && before[j] == p;
        assert(places[j] == p);
    }
    assert(places[n] == (tuples.last().0, tuples.last().1));
}

/// Pixels that arrive for places of the frame, no two for the same place and
/// none for a place already seen, are all taken. Afterwards exactly their
/// places have been added to those seen, each of these places holds the pixel
/// that arrived for it, and every other place holds what it held before.
pub proof fn lemma_collect(c: Collected, tuples: Seq<(u32, u32, Rgb)>)
    requires
        c.wf(),
        places_of(tuples).no_duplicates(),
        forall|i: int|
            0 <= i < tuples.len() ==> c.accepts((#[trigger] tuples[i]).0, tuples[i].1),
    ensures
        c.collect(tuples).wf(),
        c.collect(tuples).raster.width == c.raster.width,
        c.collect(tuples).raster.height == c.raster.height,
        c.collect(tuples).seen == c.seen.union(places_of(tuples).to_set()),
        c.collect(tuples).seen.len() == c.seen.len() + tuples.len(),
        forall|i: int|
            0 <= i < tuples.len() ==> c.collect(tuples.take(i)).accepts(
                (#[trigger] tuples[i]).0,
                tuples[i].1,
            ),
        forall|i: int|
            0 <= i < tuples.len() ==> c.collect(tuples).raster.pixel(
                (#[trigger] tuples[i]).0,
                tuples[i].1,
            ) == tuples[i].2,
        forall|x: u32, y: u32|
            c.raster.contains(x, y) && !places_of(tuples).contains((x, y)) ==> #[trigger] c.collect(
                tuples,
            ).raster.pixel(x, y) == c.raster.pixel(x, y),
    decreases tuples.len(),
{
    let places = places_of(tuples);
    if tuples.len() == 0 {
        assert(c.seen.union(places.to_set()) =~= c.seen);
    } else {
        let n = tuples.len() - 1;
        let before = tuples.drop_last();
        let t = tuples.last();
        let mid = c.collect(before);
        let end = c.collect(tuples);
        assert(end == mid.receive(t));
        assert(places_of(before) =~= places.drop_last());
        assert forall|i: int| 0 <= i < before.len() implies c.accepts(
            (#[trigger] before[i]).0,
            before[i].1,
        ) by {
            assert(before[i] == tuples[i]);
        }
        lemma_collect(c, before);
        assert(c.accepts(tuples[n].0, tuples[n].1));
        assert(!places_of(before).contains((t.0, t.1))) by {
            if places_of(before).contains((t.0, t.1)) {
                let j = choose|j: int|
                    0 <= j < places_of(before).len() && places_of(before)[j] == (t.0, t.1);
                assert(places[j] == places[n]);
            }
        }
        assert(mid.accepts(t.0, t.1));
        lemma_receive(mid, t);
        assert(end.seen =~= c.seen.union(places.to_set())) by {
            assert forall|p: (u32, u32)|
                end.seen.contains(p) <==> c.seen.union(places.to_set()).contains(p) by {
                lemma_places_prefix(tuples, p);
            }
        }
        assert forall|i: int| 0 <= i < tuples.len() implies c.collect(tuples.take(i)).accepts(
            (#[trigger] tuples[i]).0,
            tuples[i].1,
        ) by {
            if i < n {
                assert(tuples.take(i) =~= before.take(i));
                assert(before[i] == tuples[i]);
            } else {
                assert(tuples.take(i) =~= before);
            }
        }
        assert forall|i: int| 0 <= i < tuples.len() implies end.raster.pixel(
            (#[trigger] tuples[i]).0,
            tuples[i].1,
        ) == tuples[i].2 by {
            if i < n {
                assert(before[i] == tuples[i]);
                assert(places[i] != places[n]);
                assert(mid.raster.pixel(tuples[i].0, tuples[i].1) == tuples[i].2);
            }
        }
        assert forall|x: u32, y: u32|
            c.raster.contains(x, y) && !places.contains((x, y)) implies #[trigger] end.raster.pixel(
            x,
            y,
        ) == c.raster.pixel(x, y) by {
            lemma_places_prefix(tuples, (x, y));
            assert(mid.raster.pixel(x, y) == c.raster.pixel(x, y));
        }
    }
}

/// A full render fills the frame, in whatever order the pixels arrive: where
/// the places of the pixels that arrive are those of the plan, each of them
/// once, every pixel is taken, every place is seen, and each place holds the
/// pixel that arrived for it.
pub proof fn lemma_full_render(width: u32, height: u32, tuples: Seq<(u32, u32, Rgb)>)
    requires
        places_of(tuples).to_multiset() == plan(width, height).to_multiset(),
    ensures
        tuples.len() == width as nat * height as nat,
        places_of(tuples).no_duplicates(),
        places_of(tuples).to_set() == frame(width, height),
        forall|i: int|
            0 <= i < tuples.len() ==> Collected::start(width, height).collect(
                tuples.take(i),
            ).accepts((#[trigger] tuples[i]).0, tuples[i].1),
        Collected::start(width, height).collect(tuples).complete(),
        forall|i: int|
            0 <= i < tuples.len() ==> Collected::start(width, height).collect(tuples).raster.pixel(
                (#[trigger] tuples[i]).0,
                tuples[i].1,
            ) == tuples[i].2,
{
    let c = Collected::start(width, height);
    let places = places_of(tuples);
    lemma_any_order_covers(width, height, places);
    lemma_plan_covers(width, height);
    assert(c.seen.subset_of(frame(width, height)));
    assert forall|i: int| 0 <= i < tuples.len() implies c.accepts(
        (#[trigger] tuples[i]).0,
        tuples[i].1,
    ) by {
        assert(in_frame(width, height, places[i]));
    }
    lemma_collect(c, tuples);
    assert(c.collect(tuples).seen =~= frame(width, height));
}

/// The order of arrival does not show in the frame: two runs of pixels, each
/// for places of the frame and no two for the same place, that hold the same
/// pixels leave the same collection.
pub proof fn lemma_collect_any_order(
    width: u32,
    height: u32,
    a: Seq<(u32, u32, Rgb)>,
    b: Seq<(u32, u32, Rgb)>,
)
    requires
        places_of(a).no_duplicates(),
        places_of(b).no_duplicates(),
        forall|i: int| 0 <= i < a.len() ==> in_frame(width, height, #[trigger] places_of(a)[i]),
        a.to_set() == b.to_set(),
    ensures
        Collected::start(width, height).collect(a) == Collected::start(width, height).collect(b),
{
    let c = Collected::start(width, height);
    assert forall|i: int| 0 <= i < a.len() implies c.accepts((#[trigger] a[i]).0, a[i].1) by {
        assert(in_frame(width, height, places_of(a)[i]));
    }
    assert forall|j: int| 0 <= j < b.len() implies c.accepts((#[trigger] b[j]).0, b[j].1) by {
        assert(b.to_set().contains(b[j]));
        assert(a.contains(b[j]));
        let i = choose|i: int| 0 <= i < a.len() && a[i] == b[j];
        assert(in_frame(width, height, places_of(a)[i]));
    }
    lemma_collect(c, a);
    lemma_collect(c, b);
    let ra = c.collect(a);
    let rb = c.collect(b);
    assert forall|p: (u32, u32)| places_of(a).contains(p) <==> places_of(b).contains(p) by {
        if places_of(a).contains(p) {
            let i = choose|i: int| 0 <= i < a.len() && places_of(a)[i] == p;
            assert(a.to_set().contains(a[i]));
            assert(b.contains(a[i]));
            let j = choose|j: int| 0 <= j < b.len() && b[j] == a[i];
            assert(places_of(b)[j] == p);
        }
        if places_of(b).contains(p) {
            let j = choose|j: int| 0 <= j < b.len() && places_of(b)[j] == p;
            assert(b.to_set().contains(b[j]));
            assert(a.contains(b[j]));
            let i = choose|i: int| 0 <= i < a.len() && a[i] == b[j];
            assert(places_of(a)[i] == p);
        }
    }
    assert(places_of(a).to_set() =~= places_of(b).to_set());
    assert forall|k: int| 0 <= k < ra.raster.pixels.len() implies ra.raster.pixels[k]
        == rb.raster.pixels[k] by {
        lemma_index_of_place_at(width, height, k);
        let p = place_at(width, k);
        if places_of(a).contains(p) {
            let i = choose|i: int| 0 <= i < a.len() && places_of(a)[i] == p;
            assert(a.to_set().contains(a[i]));
            assert(b.contains(a[i]));
            let j = choose|j: int| 0 <= j < b.len() && b[j] == a[i];
            assert(ra.raster.pixel(a[i].0, a[i].1) == a[i].2);
            assert(rb.raster.pixel(b[j].0, b[j].1) == b[j].2);
        } else {
            assert(ra.raster.pixel(p.0, p.1) == c.raster.pixel(p.0, p.1));
            assert(rb.raster.pixel(p.0, p.1) == c.raster.pixel(p.0, p.1));
        }
    }
    assert(ra.raster.pixels =~= rb.raster.pixels);
}

/// The order of arrival does not show in what is written out: two runs of
/// pixels as in [`lemma_collect_any_order`] give the same binary pixmap, byte
/// for byte.
pub proof fn lemma_pixmap_any_order(
    width: u32,
    height: u32,
    a: Seq<(u32, u32, Rgb)>,
    b: Seq<(u32, u32, Rgb)>,
)
    requires
        places_of(a).no_duplicates(),
        places_of(b).no_duplicates(),
        forall|i: int| 0 <= i < a.len() ==> in_frame(width, height, #[trigger] places_of(a)[i]),
        a.to_set() == b.to_set(),
    ensures
        binary_pixmap(Collected::start(width, height).collect(a).raster) == binary_pixmap(
            Collected::start(width, height).collect(b).raster,
        ),
{
    lemma_collect_any_order(width, height, a, b);
}

} // verus!
