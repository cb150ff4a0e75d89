//! The progressive renderer.
//!
//! Sampling a pixel is numeric work that a [`PixelSampler`] does. What is
//! decided here is which pixels a pass samples and in what order, what
//! happens to a colour once it has been computed, and when the whole cache
//! starts over.

use crate::pixel::{PixelCache, PixelColor, PixelPosition, PixelRenderer, SinkCall};
use crate::record::{extended, lemma_extended_by_nothing, lemma_pushed_after_extended, pushed};
use crate::schedule::{all_fresh, all_pixels_at_random, covers_grid, has_pixel};
use rand::rngs::SmallRng;
use vstd::prelude::*;

verus! {

/// Why a viewport cannot be rendered.
#[derive(Debug, Clone, Copy, PartialEq, Eq)]
pub enum ViewportError {
    /// A side of one pixel or none leaves nothing to normalise coordinates by.
    TooSmall,
    /// The grid has more pixels than can be counted.
    TooLarge,
}

/// What a sampler was asked and what it answered.
pub struct Answer {
    pub pos: PixelPosition,
    pub samples_per_pixel: i64,
    pub color: PixelColor,
}

/// Whatever turns a pixel into a colour: a camera, a scene and the light
/// paths between them.
///
/// Nothing is asked of the colour that comes back; a session works with
/// whatever it is given. All that is asked of a sampler is that its record,
/// if it keeps one, grows by each answer it gives.
pub trait PixelSampler {
    /// Every answer the sampler has given, oldest first, if the sampler
    /// keeps a record of them; `None` if it keeps none.
    open spec fn answered(&self) -> Option<Seq<Answer>> {
        None
    }

    /// The colour of the pixel at `pos`, averaged over `samples_per_pixel`
    /// samples. Every random draw is taken from `random`.
    fn sample(
        &mut self,
        pos: PixelPosition,
        samples_per_pixel: i64,
        random: &mut SmallRng,
    ) -> (color: PixelColor)
        ensures
            final(self).answered() == pushed(
                old(self).answered(),
                Answer { pos, samples_per_pixel, color },
            ),
    ;
}

/// A sampler without a scene: every pixel comes out in one colour. It keeps
/// a record of its answers.
pub struct Flat {
    color: PixelColor,
    answered: Ghost<Seq<Answer>>,
}

impl Flat {
    /// The colour of every answer.
    pub closed spec fn color(&self) -> PixelColor {
        self.color
    }

    /// A sampler that answers `color` for every pixel.
    pub fn new(color: PixelColor) -> (flat: Flat)
        ensures
            flat.color() == color,
            flat.answered() == Some(Seq::<Answer>::empty()),
    {
        Flat { color, answered: Ghost(Seq::empty()) }
    }
}

impl PixelSampler for Flat {
    closed spec fn answered(&self) -> Option<Seq<Answer>> {
        Some(self.answered@)
    }

    fn sample(
        &mut self,
        pos: PixelPosition,
        samples_per_pixel: i64,
        random: &mut SmallRng,
    ) -> (color: PixelColor)
        ensures
            color == old(self).color(),
            final(self).color() == old(self).color(),
    {
        let color = self.color;
        proof {
            self.answered@ = self.answered@.push(Answer { pos, samples_per_pixel, color });
        }
        color
    }
}

/// A render session: the pixel cache in visiting order, the random source
/// that ordered it, and the sink that receives finished colours.
pub struct Raytracer<S: PixelRenderer> {
    pixel_cache: Vec<PixelCache>,
    width: usize,
    height: usize,
    random: SmallRng,
    renderer: S,
}

impl<S: PixelRenderer> Raytracer<S> {
    /// The cache, in the order in which a pass visits it.
    pub closed spec fn entries(&self) -> Seq<PixelCache> {
        self.pixel_cache@
    }

    /// The sink as the session holds it.
    pub closed spec fn spec_renderer(&self) -> S {
        self.renderer
    }

    pub closed spec fn spec_width(&self) -> usize {
        self.width
    }

    pub closed spec fn spec_height(&self) -> usize {
        self.height
    }

    /// A session is well formed when its viewport is at least two pixels
    /// each way and its cache holds every pixel of the viewport once.
    pub open spec fn wf(&self) -> bool {
        &&& self.spec_width() > 1
        &&& self.spec_height() > 1
        &&& covers_grid(self.entries(), self.spec_width() as nat, self.spec_height() as nat)
    }

    /// Starts a session for a `width` by `height` viewport.
    ///
    /// A viewport with a side of one pixel or less is refused, and so is one
    /// whose pixel count does not fit the machine; every other viewport gets
    /// a fresh cache in random order.
    pub fn new(width: usize, height: usize, random: SmallRng, renderer: S) -> (made: Result<
        Self,
        ViewportError,
    >)
        ensures
            match made {
                Ok(tracer) => {
                    &&& width > 1
                    &&& height > 1
                    &&& width * height <= usize::MAX
                    &&& tracer.wf()
                    &&& tracer.spec_width() == width
                    &&& tracer.spec_height() == height
                    &&& all_fresh(tracer.entries())
                    &&& tracer.spec_renderer() == renderer
                },
                Err(ViewportError::TooSmall) => width <= 1 || height <= 1,
                Err(ViewportError::TooLarge) => width > 1 && height > 1 && width * height
                    > usize::MAX,
            },
    {
        if width <= 1 || height <= 1 {
            return Err(ViewportError::TooSmall);
        }
        if width.checked_mul(height).is_none() {
            return Err(ViewportError::TooLarge);
        }
        let mut random = random;
        let random_positions = all_pixels_at_random(height, width, &mut random);
        Ok(
            Raytracer {
                pixel_cache: random_positions,
                width,
                height,
                random,
                renderer,
            },
        )
    }

    #[verifier::when_used_as_spec(spec_width)]
    pub fn width(&self) -> (width: usize)
        ensures
            width == self.spec_width(),
    {
        self.width
    }

    #[verifier::when_used_as_spec(spec_height)]
    pub fn height(&self) -> (height: usize)
        ensures
            height == self.spec_height(),
    {
        self.height
    }

    /// The sink, to look at what it has been handed.
    pub fn renderer(&self) -> (sink: &S)
        ensures
            *sink == self.spec_renderer(),
    {
        &self.renderer
    }

    /// How many records the cache holds.
    pub fn pixel_count(&self) -> (count: usize)
        ensures
            count == self.entries().len(),
    {
        self.pixel_cache.len()
    }

    /// The record at place `index` of the visiting order.
    pub fn entry(&self, index: usize) -> (entry: &PixelCache)
        requires
            index < self.entries().len(),
        ensures
            *entry == self.entries()[index as int],
    {
        &self.pixel_cache[index]
    }

    /// The first place at or after `from` whose pixel still wants samples,
    /// or `None` when the rest of the pass has nothing left to do.
    pub fn next_pending(&self, from: usize) -> (next: Option<usize>)
        ensures
            match next {
                Some(index) => {
                    &&& from <= index < self.entries().len()
                    &&& !self.entries()[index as int].spec_is_converged()
                    &&& forall|j: int|
                        from <= j < index ==> (#[trigger] self.entries()[j]).spec_is_converged()
                },
                None => forall|j: int|
                    from <= j < self.entries().len() ==> (
                    #[trigger] self.entries()[j]).spec_is_converged(),
            },
    {
        let mut index: usize = from;
        while index < self.pixel_cache.len()
            invariant
                from <= index,
                forall|j: int|
                    from <= j < index && j < self.pixel_cache@.len() ==> (
                    #[trigger] self.pixel_cache@[j]).spec_is_converged(),
            decreases self.pixel_cache@.len() - index,
        {
            if !self.pixel_cache[index].is_converged() {
                return Some(index);
            }
            index = index + 1;
        }
        None
    }

    /// Takes in the colour that was computed for the pixel at place `index`.
    ///
    /// A pixel that still wants samples has the colour shown by the sink and
    /// noted in its record. A converged pixel is past sampling: its colour is
    /// neither shown nor noted.
    pub fn record(&mut self, index: usize, color: PixelColor)
        requires
            index < old(self).entries().len(),
        ensures
            final(self).entries() == old(self).entries().update(
                index as int,
                old(self).entries()[index as int].observed(color),
            ),
            final(self).spec_renderer().received() == if old(
                self,
            ).entries()[index as int].spec_is_converged() {
                old(self).spec_renderer().received()
            } else {
                pushed(
                    old(self).spec_renderer().received(),
                    SinkCall::SetPixel(old(self).entries()[index as int].pos, color),
                )
            },
            old(self).entries()[index as int].spec_is_converged() ==> final(self).spec_renderer()
                == old(self).spec_renderer(),
            final(self).spec_width() == old(self).spec_width(),
            final(self).spec_height() == old(self).spec_height(),
            old(self).wf() ==> final(self).wf(),
    {
        let mut entry = self.pixel_cache[index];
        if !entry.is_converged() {
            self.renderer.set_pixel(entry.pos, color);
            entry.record(color);
            self.pixel_cache.set(index, entry);
        }
        proof {
            let before = old(self).entries();
            let after = self.entries();
            assert(after =~= before.update(index as int, before[index as int].observed(color)));
            if old(self).wf() {
                lemma_observed_keeps_grid(
                    before,
                    index as int,
                    color,
                    self.spec_width() as nat,
                    self.spec_height() as nat,
                );
            }
        }
    }

    /// One pass over the cache.
    ///
    /// Every pixel that still wants samples is handed to `sampler`, in
    /// visiting order; the colour that comes back is shown by the sink and
    /// noted in the pixel's record. Converged pixels are passed over: they
    /// are not sampled, the sink hears nothing of them, and their records
    /// stay as they are.
    pub fn generate<P: PixelSampler>(&mut self, sampler: &mut P, samples_per_pixel: i64)
        ensures
            final(self).entries().len() == old(self).entries().len(),
            forall|i: int|
                0 <= i < old(self).entries().len() ==> sampled_once(
                    old(self).entries()[i],
                    #[trigger] final(self).entries()[i],
                ),
            final(sampler).answered() == extended(
                old(sampler).answered(),
                answers(
                    old(self).entries(),
                    final(self).entries(),
                    samples_per_pixel,
                    old(self).entries().len(),
                ),
            ),
            final(self).spec_renderer().received() == extended(
                old(self).spec_renderer().received(),
                sink_calls(
                    old(self).entries(),
                    final(self).entries(),
                    old(self).entries().len(),
                ),
            ),
            nothing_pending(old(self).entries()) ==> *final(sampler) == *old(sampler) && final(self).spec_renderer() == old(self).spec_renderer(),
            final(self).spec_width() == old(self).spec_width(),
            final(self).spec_height() == old(self).spec_height(),
            old(self).wf() ==> final(self).wf(),
    {
        proof {
            lemma_extended_by_nothing(sampler.answered());
            lemma_extended_by_nothing(self.spec_renderer().received());
        }
        let mut from: usize = 0;
        loop
            invariant
                from <= self.entries().len(),
                self.entries().len() == old(self).entries().len(),
                forall|i: int|
                    0 <= i < from ==> sampled_once(
                        old(self).entries()[i],
                        #[trigger] self.entries()[i],
                    ),
                forall|i: int|
                    from <= i < self.entries().len() ==> #[trigger] self.entries()[i] == old(
                        self,
                    ).entries()[i],
                sampler.answered() == extended(
                    old(sampler).answered(),
                    answers(old(self).entries(), self.entries(), samples_per_pixel, from as nat),
                ),
                self.spec_renderer().received() == extended(
                    old(self).spec_renderer().received(),
                    sink_calls(old(self).entries(), self.entries(), from as nat),
                ),
                from == 0 ==> *sampler == *old(sampler) && self.spec_renderer() == old(
                    self,
                ).spec_renderer(),
                from > 0 ==> !nothing_pending(old(self).entries()),
                self.spec_width() == old(self).spec_width(),
                self.spec_height() == old(self).spec_height(),
                old(self).wf() ==> self.wf(),
            ensures
                forall|i: int|
                    0 <= i < self.entries().len() ==> sampled_once(
                        old(self).entries()[i],
                        #[trigger] self.entries()[i],
                    ),
                sampler.answered() == extended(
                    old(sampler).answered(),
                    answers(
                        old(self).entries(),
                        self.entries(),
                        samples_per_pixel,
                        self.entries().len(),
                    ),
                ),
                self.spec_renderer().received() == extended(
                    old(self).spec_renderer().received(),
                    sink_calls(old(self).entries(), self.entries(), self.entries().len()),
                ),
                nothing_pending(old(self).entries()) ==> *sampler == *old(sampler)
                    && self.spec_renderer() == old(self).spec_renderer(),
            decreases self.entries().len() - from,
        {
            let ghost earlier = self.entries();
            match self.next_pending(from) {
                None => {
                    proof {
                        assert forall|i: int| from <= i < earlier.len() implies (
                        #[trigger] old(self).entries()[i]).spec_is_converged() by {
                            assert(earlier[i] == old(self).entries()[i]);
                        }
                        lemma_calls_carry_over(
                            old(self).entries(),
                            earlier,
                            earlier,
                            samples_per_pixel,
                            from as nat,
                            earlier.len(),
                        );
                    }
                    break ;
                },
                Some(index) => {
                    assert(index < self.pixel_cache.len());
                    let pos = self.pixel_cache[index].pos;
                    let color = sampler.sample(pos, samples_per_pixel, &mut self.random);
                    self.record(index, color);
                    proof {
                        let before = old(self).entries();
                        let now = self.entries();
                        assert forall|i: int| from <= i < index implies (
                        #[trigger] before[i]).spec_is_converged() by {
                            assert(earlier[i] == before[i]);
                        }
                        assert(earlier[index as int] == before[index as int]);
                        assert(!before[index as int].spec_is_converged());
                        assert(now[index as int].last_color == color);
                        lemma_calls_carry_over(
                            before,
                            earlier,
                            now,
                            samples_per_pixel,
                            from as nat,
                            index as nat,
                        );
                        lemma_pushed_after_extended(
                            old(sampler).answered(),
                            answers(before, earlier, samples_per_pixel, from as nat),
                            Answer { pos, samples_per_pixel, color },
                        );
                        lemma_pushed_after_extended(
                            old(self).spec_renderer().received(),
                            sink_calls(before, earlier, from as nat),
                            SinkCall::SetPixel(pos, color),
                        );
                    }
                    from = index + 1;
                },
            }
        }
    }

    /// Throws the cache away and starts over: every pixel gets a fresh
    /// record, the visiting order is drawn anew, and the sink is told to
    /// clear what it shows.
    pub fn invalidate_pixels(&mut self)
        requires
            old(self).wf(),
        ensures
            final(self).wf(),
            final(self).spec_width() == old(self).spec_width(),
            final(self).spec_height() == old(self).spec_height(),
            all_fresh(final(self).entries()),
            forall|i: int|
                0 <= i < final(self).entries().len() ==> !(
                #[trigger] final(self).entries()[i]).spec_is_converged(),
            final(self).spec_renderer().received() == pushed(
                old(self).spec_renderer().received(),
                SinkCall::InvalidatePixels,
            ),
    {
        assert(self.width * self.height == self.pixel_cache.len());
        let random_positions = all_pixels_at_random(self.height, self.width, &mut self.random);
        self.pixel_cache = random_positions;
        self.renderer.invalidate_pixels();
    }
}

/// Whether `after` is what one pass makes of the record `before`: a
/// converged record is left alone, and any other has observed exactly one
/// colour, the one it now remembers.
pub open spec fn sampled_once(before: PixelCache, after: PixelCache) -> bool {
    after == before.observed(after.last_color)
}

/// Whether no record of `cache` wants samples any more.
pub open spec fn nothing_pending(cache: Seq<PixelCache>) -> bool {
    forall|i: int| 0 <= i < cache.len() ==> (#[trigger] cache[i]).spec_is_converged()
}

/// What a pass hands to the sink for the first `upto` records: for every
/// record that was not converged, in visiting order, the colour that the
/// record remembers afterwards.
pub open spec fn sink_calls(before: Seq<PixelCache>, after: Seq<PixelCache>, upto: nat) -> Seq<
    SinkCall,
>
    decreases upto,
{
    if upto == 0 {
        Seq::empty()
    } else {
        let earlier = sink_calls(before, after, (upto - 1) as nat);
        if before[upto - 1].spec_is_converged() {
            earlier
        } else {
            earlier.push(SinkCall::SetPixel(before[upto - 1].pos, after[upto - 1].last_color))
        }
    }
}

/// What a pass asks of the sampler, and is answered, for the first `upto`
/// records: for every record that was not converged, in visiting order, the
/// record's pixel, the number of samples, and the colour that the record
/// remembers afterwards.
pub open spec fn answers(
    before: Seq<PixelCache>,
    after: Seq<PixelCache>,
    samples_per_pixel: i64,
    upto: nat,
) -> Seq<Answer>
    decreases upto,
{
    if upto == 0 {
        Seq::empty()
    } else {
        let earlier = answers(before, after, samples_per_pixel, (upto - 1) as nat);
        if before[upto - 1].spec_is_converged() {
            earlier
        } else {
            earlier.push(
                Answer {
                    pos: before[upto - 1].pos,
                    samples_per_pixel,
                    color: after[upto - 1].last_color,
                },
            )
        }
    }
}

/// A pixel that four passes running have left with the colour it had is
/// converged after the fourth, so the fifth pass leaves it out: its record
/// stays, the sampler is not asked for it and the sink hears nothing of it.
pub proof fn lemma_stable_pixel_converges(
    start: PixelCache,
    first: PixelCache,
    second: PixelCache,
    third: PixelCache,
    fourth: PixelCache,
)
    requires
        sampled_once(start, first),
        sampled_once(first, second),
        sampled_once(second, third),
        sampled_once(third, fourth),
        first.last_color == start.last_color,
        second.last_color == start.last_color,
        third.last_color == start.last_color,
        fourth.last_color == start.last_color,
    ensures
        fourth.spec_is_converged(),
        forall|fifth: PixelCache| sampled_once(fourth, fifth) ==> fifth == fourth,
        forall|before: Seq<PixelCache>, after: Seq<PixelCache>, upto: nat|
            upto > 0 && before[upto - 1] == fourth ==> #[trigger] sink_calls(before, after, upto)
                == sink_calls(before, after, (upto - 1) as nat),
        forall|before: Seq<PixelCache>, after: Seq<PixelCache>, samples_per_pixel: i64, upto: nat|
            upto > 0 && before[upto - 1] == fourth ==> #[trigger] answers(
                before,
                after,
                samples_per_pixel,
                upto,
            ) == answers(before, after, samples_per_pixel, (upto - 1) as nat),
{
}

/// The calls of a pass up to a place stay what they were when the records
/// before an earlier place are the same and those in between were
/// converged.
proof fn lemma_calls_carry_over(
    before: Seq<PixelCache>,
    after: Seq<PixelCache>,
    later: Seq<PixelCache>,
    samples_per_pixel: i64,
    from: nat,
    upto: nat,
)
    requires
        from <= upto,
        forall|i: int| 0 <= i < from ==> after[i] == later[i],
        forall|i: int| from <= i < upto ==> (#[trigger] before[i]).spec_is_converged(),
    ensures
        sink_calls(before, later, upto) == sink_calls(before, after, from),
        answers(before, later, samples_per_pixel, upto) == answers(
            before,
            after,
            samples_per_pixel,
            from,
        ),
    decreases upto,
{
    if upto > from {
        lemma_calls_carry_over(before, after, later, samples_per_pixel, from, (upto - 1) as nat);
    } else if upto > 0 {
        lemma_calls_carry_over(
            before,
            after,
            later,
            samples_per_pixel,
            (from - 1) as nat,
            (upto - 1) as nat,
        );
    }
}

/// Observing a colour changes what a record remembers, never which pixel it
/// belongs to, so a cache that covers its grid goes on covering it.
pub proof fn lemma_observed_keeps_grid(
    cache: Seq<PixelCache>,
    index: int,
    color: PixelColor,
    width: nat,
    height: nat,
)
    requires
        covers_grid(cache, width, height),
        0 <= index < cache.len(),
    ensures
        covers_grid(cache.update(index, cache[index].observed(color)), width, height),
{
    let after = cache.update(index, cache[index].observed(color));
    assert forall|i: int| 0 <= i < after.len() implies (#[trigger] after[i]).pos == cache[i].pos by {}
    assert forall|i: int, j: int| 0 <= i < j < after.len() implies (#[trigger] after[i]).pos != (
    #[trigger] after[j]).pos by {
        assert(cache[i].pos != cache[j].pos);
    }
    assert forall|x: int, y: int| 0 <= x < width && 0 <= y < height implies #[trigger] has_pixel(
        after,
        x,
        y,
    ) by {
        assert(has_pixel(cache, x, y));
        let k = choose|k: int|
            0 <= k < cache.len() && (#[trigger] cache[k]).pos.x == x && cache[k].pos.y == y;
        assert(after[k].pos == cache[k].pos);
    }
}

} // verus!
