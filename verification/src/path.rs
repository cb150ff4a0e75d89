//! The control skeleton of one light path.
//!
//! Following a ray is numeric work: finding the nearest surface, asking its
//! material for a scattered ray, multiplying colours. What is decided here
//! is how the path goes on: whether the scene is consulted at all, what a
//! miss, an absorption or a scattering means for the radiance, and when the
//! path has bounced often enough.

use crate::record::{extended, lemma_extended_by_nothing, lemma_pushed_after_extended, pushed};
use rand::rngs::SmallRng;
use vstd::prelude::*;

verus! {

/// What consulting the scene and the hit material turned up for a ray.
#[derive(Debug, Clone, Copy, PartialEq, Eq)]
pub enum Surface {
    /// The ray left the scene without touching a shape.
    Miss,
    /// The nearest shape's material swallowed the ray.
    Absorbed,
    /// The nearest shape's material sent the ray on, attenuated.
    Scattered,
}

/// What a ray contributes, as far as it can be said without arithmetic.
#[derive(Debug, Clone, Copy, PartialEq, Eq)]
pub enum Radiance {
    /// No light.
    Black,
    /// The ambient term of the sky.
    Background,
    /// The material's attenuation times whatever the scattered ray
    /// contributes along the path given here.
    Attenuated(Path),
}

/// What a whole path contributes, up to the attenuations it has gathered.
#[derive(Debug, Clone, Copy, PartialEq, Eq)]
pub enum PathEnd {
    /// No light: the path was swallowed or ran out of bounces.
    Black,
    /// The ambient term of the sky, seen along the last ray.
    Background,
}

/// How far a light path has come and how far it may go.
#[derive(Debug, Clone, Copy, PartialEq, Eq)]
pub struct Path {
    pub depth: u32,
    pub max_depth: u32,
}

/// The numeric side of a light path: the ray that is being followed and the
/// attenuation gathered along the way.
///
/// Nothing is asked of what a lookup reports; a path is followed through
/// whatever it is told. All that is asked of a walker is that its record, if
/// it keeps one, grows by each thing it reports.
pub trait Walker {
    /// Everything the walker has reported so far, oldest first, if the
    /// walker keeps a record of it; `None` if it keeps none.
    open spec fn reported(&self) -> Option<Seq<Surface>> {
        None
    }

    /// Consults the scene for the ray at hand and asks the material of the
    /// nearest hit to scatter it. On `Scattered` the walker has multiplied
    /// the attenuation in and moved on to the scattered ray. Every random
    /// draw is taken from `random`.
    fn bounce(&mut self, random: &mut SmallRng) -> (surface: Surface)
        ensures
            final(self).reported() == pushed(old(self).reported(), surface),
    ;
}

/// A walker without a scene: it reports a prepared run of lookups, one per
/// bounce, and misses once the run is over. It keeps a record of what it
/// has reported.
pub struct Script {
    surfaces: Vec<Surface>,
    next: usize,
    reported: Ghost<Seq<Surface>>,
}

impl Script {
    /// The prepared run.
    pub closed spec fn run(&self) -> Seq<Surface> {
        self.surfaces@
    }

    /// How much of the run has been reported.
    pub closed spec fn played(&self) -> nat {
        self.next as nat
    }

    /// What the next bounce will report.
    pub open spec fn upcoming(&self) -> Surface {
        if self.played() < self.run().len() {
            self.run()[self.played() as int]
        } else {
            Surface::Miss
        }
    }

    /// A walker that will report `surfaces`, first to last.
    pub fn new(surfaces: Vec<Surface>) -> (script: Script)
        ensures
            script.run() == surfaces@,
            script.played() == 0,
            script.reported() == Some(Seq::<Surface>::empty()),
    {
        Script { surfaces, next: 0, reported: Ghost(Seq::empty()) }
    }
}

impl Walker for Script {
    closed spec fn reported(&self) -> Option<Seq<Surface>> {
        Some(self.reported@)
    }

    fn bounce(&mut self, random: &mut SmallRng) -> (surface: Surface)
        ensures
            surface == old(self).upcoming(),
            final(self).run() == old(self).run(),
            final(self).played() == if old(self).played() < old(self).run().len() {
                old(self).played() + 1
            } else {
                old(self).played()
            },
    {
        let surface = if self.next < self.surfaces.len() {
            let prepared = self.surfaces[self.next];
            self.next = self.next + 1;
            prepared
        } else {
            Surface::Miss
        };
        proof {
            self.reported@ = self.reported@.push(surface);
        }
        surface
    }
}

impl Path {
    /// Whether the path has used up its bounces.
    pub open spec fn spec_is_spent(&self) -> bool {
        self.depth >= self.max_depth
    }

    /// How many more times the path may consult the scene.
    pub open spec fn lookups_left(self) -> nat {
        if self.depth >= self.max_depth {
            0
        } else {
            (self.max_depth - self.depth) as nat
        }
    }

    /// The same path one bounce deeper.
    pub open spec fn deeper(self) -> Path {
        Path { depth: (self.depth + 1) as u32, max_depth: self.max_depth }
    }

    /// What the ray at this point of the path contributes, given what a
    /// lookup found or would find. A spent path is black whatever the scene
    /// holds; otherwise a miss shows the background, an absorbed ray is
    /// black, and a scattered ray hands on to the path one bounce deeper.
    pub open spec fn spec_resolve(&self, found: Surface) -> Radiance {
        if self.spec_is_spent() {
            Radiance::Black
        } else {
            match found {
                Surface::Miss => Radiance::Background,
                Surface::Absorbed => Radiance::Black,
                Surface::Scattered => Radiance::Attenuated(self.deeper()),
            }
        }
    }

    /// Whether `found` can be the lookups of this path from here to its end,
    /// one after the other: a spent path makes none, and any other goes on
    /// for as long as its rays are scattered and stops at the first that is
    /// not.
    pub open spec fn runs(self, found: Seq<Surface>) -> bool
        decreases found.len(),
    {
        if self.spec_is_spent() {
            found.len() == 0
        } else if found.len() == 0 {
            false
        } else if found[0] == Surface::Scattered {
            self.deeper().runs(found.drop_first())
        } else {
            found.len() == 1
        }
    }

    /// What the path contributes when its lookups turn up `found`: the
    /// background if the last ray got away, black otherwise.
    pub open spec fn end_of(self, found: Seq<Surface>) -> PathEnd
        decreases found.len(),
    {
        if self.spec_is_spent() || found.len() == 0 {
            PathEnd::Black
        } else {
            match self.spec_resolve(found[0]) {
                Radiance::Black => PathEnd::Black,
                Radiance::Background => PathEnd::Background,
                Radiance::Attenuated(next) => next.end_of(found.drop_first()),
            }
        }
    }

    /// The path of a camera ray that may bounce `max_depth` times.
    pub fn new(max_depth: u32) -> (path: Path)
        ensures
            path == (Path { depth: 0, max_depth }),
    {
        Path { depth: 0, max_depth }
    }

    /// Whether the path is at its end; the scene is consulted only if not.
    #[verifier::when_used_as_spec(spec_is_spent)]
    pub fn is_spent(&self) -> (spent: bool)
        ensures
            spent == self.spec_is_spent(),
    {
        self.depth >= self.max_depth
    }

    #[verifier::when_used_as_spec(spec_resolve)]
    pub fn resolve(&self, found: Surface) -> (radiance: Radiance)
        ensures
            radiance == self.spec_resolve(found),
    {
        if self.depth >= self.max_depth {
            return Radiance::Black;
        }
        match found {
            Surface::Miss => Radiance::Background,
            Surface::Absorbed => Radiance::Black,
            Surface::Scattered => Radiance::Attenuated(
                Path { depth: self.depth + 1, max_depth: self.max_depth },
            ),
        }
    }

    /// Follows the path to its end.
    ///
    /// The walker is asked to bounce for as long as the path has bounces
    /// left and its rays are scattered. What the lookups turned up comes
    /// back as a ghost value beside the result.
    pub fn follow<W: Walker>(self, walker: &mut W, random: &mut SmallRng) -> (walked: (
        PathEnd,
        Ghost<Seq<Surface>>,
    ))
        ensures
            final(walker).reported() == extended(old(walker).reported(), walked.1@),
            self.runs(walked.1@),
            walked.0 == self.end_of(walked.1@),
    {
        let mut at = self;
        let ghost mut found: Seq<Surface> = Seq::empty();
        proof {
            lemma_extended_by_nothing(walker.reported());
        }
        loop
            invariant
                walker.reported() == extended(old(walker).reported(), found),
                at.max_depth == self.max_depth,
                self.depth <= at.depth,
                at.depth - self.depth == found.len(),
                found.len() > 0 ==> at.depth <= at.max_depth,
                forall|i: int| 0 <= i < found.len() ==> found[i] == Surface::Scattered,
            decreases at.lookups_left(),
        {
            if at.is_spent() {
                proof {
                    lemma_scattered_run(self, found, Seq::empty());
                    assert(found + Seq::<Surface>::empty() =~= found);
                }
                return (PathEnd::Black, Ghost(found));
            }
            let surface = walker.bounce(random);
            proof {
                lemma_pushed_after_extended(old(walker).reported(), found, surface);
            }
            match at.resolve(surface) {
                Radiance::Attenuated(next) => {
                    proof {
                        found = found.push(surface);
                    }
                    at = next;
                },
                Radiance::Background => {
                    proof {
                        lemma_scattered_run(self, found, seq![surface]);
                        assert(found + seq![surface] =~= found.push(surface));
                    }
                    return (PathEnd::Background, Ghost(found.push(surface)));
                },
                Radiance::Black => {
                    proof {
                        lemma_scattered_run(self, found, seq![surface]);
                        assert(found + seq![surface] =~= found.push(surface));
                    }
                    return (PathEnd::Black, Ghost(found.push(surface)));
                },
            }
        }
    }
}

/// After a stretch of scattered rays a path goes on exactly as the path
/// that many bounces deeper does.
proof fn lemma_scattered_run(path: Path, scattered: Seq<Surface>, rest: Seq<Surface>)
    requires
        forall|i: int| 0 <= i < scattered.len() ==> scattered[i] == Surface::Scattered,
        scattered.len() > 0 ==> path.depth + scattered.len() <= path.max_depth,
    ensures
        path.runs(scattered + rest) == (Path {
            depth: (path.depth + scattered.len()) as u32,
            max_depth: path.max_depth,
        }).runs(rest),
        path.end_of(scattered + rest) == (Path {
            depth: (path.depth + scattered.len()) as u32,
            max_depth: path.max_depth,
        }).end_of(rest),
    decreases scattered.len(),
{
    if scattered.len() == 0 {
        assert(scattered + rest =~= rest);
    } else {
        assert((scattered + rest).drop_first() =~= scattered.drop_first() + rest);
        assert((scattered + rest)[0] == Surface::Scattered);
        lemma_scattered_run(path.deeper(), scattered.drop_first(), rest);
    }
}

/// A ray that misses every shape, on a path that is not spent, contributes
/// exactly the background, and the path ends there with that one lookup.
pub proof fn lemma_miss_is_background(path: Path, found: Seq<Surface>)
    requires
        !path.spec_is_spent(),
        path.runs(found),
        found[0] == Surface::Miss,
    ensures
        path.spec_resolve(Surface::Miss) == Radiance::Background,
        path.end_of(found) == PathEnd::Background,
        found.len() == 1,
{
}

/// A path that is already at its greatest depth contributes black whatever
/// the scene holds, and consults the scene no more.
pub proof fn lemma_spent_is_black(path: Path, found: Seq<Surface>)
    requires
        path.spec_is_spent(),
        path.runs(found),
    ensures
        forall|surface: Surface| path.spec_resolve(surface) == Radiance::Black,
        path.end_of(found) == PathEnd::Black,
        found.len() == 0,
{
}

/// Whatever the lookups turn up, a path consults the scene no more often
/// than it has bounces left.
pub proof fn lemma_lookups_bounded(path: Path, found: Seq<Surface>)
    requires
        path.runs(found),
    ensures
        found.len() <= path.lookups_left(),
    decreases found.len(),
{
    if !path.spec_is_spent() && found.len() > 0 && found[0] == Surface::Scattered {
        lemma_lookups_bounded(path.deeper(), found.drop_first());
    }
}

/// A path shows the background only if its last ray got away: every lookup
/// before the last was a scattering and the last was a miss.
pub proof fn lemma_background_ends_in_miss(path: Path, found: Seq<Surface>)
    requires
        path.runs(found),
        path.end_of(found) == PathEnd::Background,
    ensures
        found.len() > 0,
        found.last() == Surface::Miss,
        forall|i: int| 0 <= i < found.len() - 1 ==> found[i] == Surface::Scattered,
    decreases found.len(),
{
    if !path.spec_is_spent() && found.len() > 0 && found[0] == Surface::Scattered {
        let rest = found.drop_first();
        lemma_background_ends_in_miss(path.deeper(), rest);
        assert(found.last() == rest.last());
        assert forall|i: int| 0 <= i < found.len() - 1 implies found[i] == Surface::Scattered by {
            if i > 0 {
                assert(found[i] == rest[i - 1]);
            }
        }
    }
}

} // verus!
