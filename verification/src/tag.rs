//! Logical time: instants, intervals and tags, with the saturating tag
//! arithmetic that the coordinator relies on.

use vstd::prelude::*;

verus! {

/// Time instant. Both physical and logical times use this type.
pub type Instant = i64;

/// Interval of time. `None` stands for "no delay", `Some(0)` for a delay of
/// one microstep and `Some(n)` with `n > 0` for `n` nanoseconds.
pub type Interval = Option<i64>;

/// Microstep instant.
pub type Microstep = u32;

pub const NEVER: i64 = i64::MIN;

pub const FOREVER: i64 = i64::MAX;

pub const NEVER_MICROSTEP: u32 = 0;

pub const FOREVER_MICROSTEP: u32 = u32::MAX;

/// The logical time at which a federation starts.
pub struct StartTime {
    pub start_time: Instant,
}

impl StartTime {
    pub fn new() -> (result: StartTime)
        ensures
            result.start_time == NEVER,
    {
        StartTime { start_time: NEVER }
    }

    pub fn start_time(&self) -> (result: Instant)
        ensures
            result == self.start_time,
    {
        self.start_time
    }

    pub fn set_start_time(&mut self, start_time: Instant)
        ensures
            final(self).start_time == start_time,
    {
        self.start_time = start_time;
    }
}

/// A tag is a time, microstep pair. Tags are ordered by time first and by
/// microstep second.
#[derive(Clone, Copy, PartialEq, Eq, Structural, Hash, Debug)]
pub struct Tag {
    pub time: Instant,
    pub microstep: Microstep,
}

/// Whether an interval stands for "no delay": it is absent or negative.
pub open spec fn no_delay(interval: Interval) -> bool {
    match interval {
        None => true,
        Some(d) => d < 0,
    }
}

impl Tag {
    /// The tag `(0, 0)`.
    pub open spec fn zero() -> Tag {
        Tag { time: 0, microstep: 0 }
    }

    /// The tag `(NEVER, 0)`, below every other tag.
    pub open spec fn never() -> Tag {
        Tag { time: NEVER, microstep: NEVER_MICROSTEP }
    }

    /// The tag `(FOREVER, u32::MAX)`, above every other tag.
    pub open spec fn forever() -> Tag {
        Tag { time: FOREVER, microstep: FOREVER_MICROSTEP }
    }

    /// Strict lexicographic order on `(time, microstep)`.
    pub open spec fn lt(self, other: Tag) -> bool {
        self.time < other.time || (self.time == other.time && self.microstep < other.microstep)
    }

    /// Lexicographic order on `(time, microstep)`.
    pub open spec fn le(self, other: Tag) -> bool {
        self.lt(other) || self == other
    }

    /// The smaller of two tags.
    pub open spec fn min(self, other: Tag) -> Tag {
        if other.lt(self) {
            other
        } else {
            self
        }
    }

    /// Three-way comparison: `-1`, `0` or `1` as `a` is below, equal to or
    /// above `b`.
    pub open spec fn compare(a: Tag, b: Tag) -> int {
        if a.lt(b) {
            -1
        } else if b.lt(a) {
            1
        } else {
            0
        }
    }

    /// The tag moved forward by an interval. A tag at time `NEVER` and a
    /// missing or negative interval leave the tag as it is. A time that would
    /// reach `FOREVER` saturates to the `FOREVER` tag. A zero interval
    /// advances the microstep by one, wrapping around at `u32::MAX`. A
    /// positive interval advances the time and resets the microstep.
    pub open spec fn delay(self, interval: Interval) -> Tag {
        match interval {
            None => self,
            Some(d) => if self.time == NEVER || d < 0 {
                self
            } else if self.time >= FOREVER - d {
                Tag::forever()
            } else if d == 0 {
                Tag {
                    time: self.time,
                    microstep: if self.microstep == u32::MAX {
                        0u32
                    } else {
                        (self.microstep + 1) as u32
                    },
                }
            } else {
                Tag { time: (self.time + d) as i64, microstep: 0 }
            },
        }
    }

    /// Whether `delay_strict` steps back from the delayed tag: the interval
    /// is present and is none of `0`, `NEVER` and `FOREVER`, and the delayed
    /// tag is at neither `NEVER` nor `FOREVER`.
    pub open spec fn steps_back(self, interval: Interval) -> bool {
        &&& interval matches Some(d)
        &&& d != 0
        &&& d != NEVER
        &&& d != FOREVER
        &&& self.delay(interval).time != NEVER
        &&& self.delay(interval).time != FOREVER
    }

    /// The greatest tag strictly below `delay` where the interval is an
    /// ordinary one and the delayed tag is finite; `delay` itself otherwise.
    pub open spec fn delay_strict(self, interval: Interval) -> Tag {
        if self.steps_back(interval) {
            Tag { time: (self.delay(interval).time - 1) as i64, microstep: u32::MAX }
        } else {
            self.delay(interval)
        }
    }

    /// Saturating sum of two tags. `NEVER` absorbs first, `FOREVER` second;
    /// then an overflow of the microsteps or of the times gives `FOREVER` and
    /// an underflow of the times gives `NEVER`.
    pub open spec fn sum(a: Tag, b: Tag) -> Tag {
        if a.time == NEVER || b.time == NEVER {
            Tag::never()
        } else if a.time == FOREVER || b.time == FOREVER {
            Tag::forever()
        } else if a.microstep + b.microstep > u32::MAX {
            Tag::forever()
        } else if a.time + b.time > i64::MAX {
            Tag::forever()
        } else if a.time + b.time < i64::MIN {
            Tag::never()
        } else {
            Tag { time: (a.time + b.time) as i64, microstep: (a.microstep + b.microstep) as u32 }
        }
    }

    pub fn new(time: Instant, microstep: Microstep) -> (result: Tag)
        ensures
            result == (Tag { time, microstep }),
    {
        Tag { time, microstep }
    }

    pub fn zero_tag() -> (result: Tag)
        ensures
            result == Tag::zero(),
    {
        Tag { time: 0, microstep: 0 }
    }

    pub fn never_tag() -> (result: Tag)
        ensures
            result == Tag::never(),
    {
        Tag { time: NEVER, microstep: 0 }
    }

    pub fn forever_tag() -> (result: Tag)
        ensures
            result == Tag::forever(),
    {
        Tag { time: FOREVER, microstep: FOREVER_MICROSTEP }
    }

    pub fn time(&self) -> (result: Instant)
        ensures
            result == self.time,
    {
        self.time
    }

    pub fn microstep(&self) -> (result: Microstep)
        ensures
            result == self.microstep,
    {
        self.microstep
    }

    pub fn set_time(&mut self, time: i64)
        ensures
            *final(self) == (Tag { time, microstep: old(self).microstep }),
    {
        self.time = time;
    }

    pub fn set_microstep(&mut self, microstep: u32)
        ensures
            *final(self) == (Tag { time: old(self).time, microstep }),
    {
        self.microstep = microstep;
    }

    /// Compares two tags: `-1` where `tag1` is earlier, `1` where it is
    /// later, `0` where the two are the same tag.
    pub fn lf_tag_compare(tag1: &Tag, tag2: &Tag) -> (result: i32)
        ensures
            result == Tag::compare(*tag1, *tag2),
    {
        if tag1.time < tag2.time {
            -1
        } else if tag1.time > tag2.time {
            1
        } else if tag1.microstep < tag2.microstep {
            -1
        } else if tag1.microstep > tag2.microstep {
            1
        } else {
            0
        }
    }

    /// Moves a tag forward by an interval.
    pub fn lf_delay_tag(tag: &Tag, interval: Interval) -> (result: Tag)
        ensures
            result == tag.delay(interval),
    {
        match interval {
            None => *tag,
            Some(d) => {
                if tag.time == NEVER || d < 0 {
                    return *tag;
                }
                if tag.time >= FOREVER - d {
                    return Tag::forever_tag();
                }
                if d == 0 {
                    let next: u32 = if tag.microstep == u32::MAX {
                        0
                    } else {
                        tag.microstep + 1
                    };
                    Tag { time: tag.time, microstep: next }
                } else {
                    Tag { time: tag.time + d, microstep: 0 }
                }
            },
        }
    }

    /// Moves a tag forward by an interval and, for an ordinary interval and a
    /// finite result, steps back to the greatest tag strictly below it.
    pub fn lf_delay_strict(tag: &Tag, interval: Interval) -> (result: Tag)
        ensures
            result == tag.delay_strict(interval),
    {
        let delayed = Tag::lf_delay_tag(tag, interval);
        match interval {
            None => delayed,
            Some(d) => {
                if d != 0 && d != NEVER && d != FOREVER && delayed.time != NEVER && delayed.time
                    != FOREVER {
                    Tag { time: delayed.time - 1, microstep: u32::MAX }
                } else {
                    delayed
                }
            },
        }
    }

    /// Adds two tags, saturating at `NEVER` and `FOREVER`.
    pub fn lf_tag_add(a: &Tag, b: &Tag) -> (result: Tag)
        ensures
            result == Tag::sum(*a, *b),
    {
        if a.time == NEVER || b.time == NEVER {
            return Tag::never_tag();
        }
        if a.time == FOREVER || b.time == FOREVER {
            return Tag::forever_tag();
        }
        let microstep = match a.microstep.checked_add(b.microstep) {
            None => {
                return Tag::forever_tag();
            },
            Some(m) => m,
        };
        match a.time.checked_add(b.time) {
            None => {
                if b.time > 0 {
                    Tag::forever_tag()
                } else {
                    Tag::never_tag()
                }
            },
            Some(time) => Tag { time, microstep },
        }
    }
}

/// The three-way comparison of tags is a total order: a tag compares equal
/// to itself and to no other tag, swapping the arguments negates the result,
/// any two tags are comparable, and "not above" is transitive.
pub proof fn lemma_compare_is_total_order(a: Tag, b: Tag, c: Tag)
    ensures
        Tag::compare(a, a) == 0,
        Tag::compare(a, b) == 0 <==> a == b,
        Tag::compare(a, b) == -Tag::compare(b, a),
        Tag::compare(a, b) == -1 || Tag::compare(a, b) == 0 || Tag::compare(a, b) == 1,
        Tag::compare(a, b) <= 0 || Tag::compare(b, a) <= 0,
        Tag::compare(a, b) <= 0 && Tag::compare(b, a) <= 0 ==> a == b,
        Tag::compare(a, b) <= 0 && Tag::compare(b, c) <= 0 ==> Tag::compare(a, c) <= 0,
        Tag::compare(a, b) < 0 && Tag::compare(b, c) <= 0 ==> Tag::compare(a, c) < 0,
        Tag::compare(a, b) <= 0 && Tag::compare(b, c) < 0 ==> Tag::compare(a, c) < 0,
{
}

/// Adding the zero tag changes nothing, for every tag whose time is neither
/// `NEVER` nor `FOREVER` and for the two sentinel tags themselves.
pub proof fn lemma_sum_zero(a: Tag)
    requires
        (a.time != NEVER && a.time != FOREVER) || a == Tag::never() || a == Tag::forever(),
    ensures
        Tag::sum(a, Tag::zero()) == a,
        Tag::sum(Tag::zero(), a) == a,
{
}

/// `NEVER` absorbs in a sum, whatever the other tag is.
pub proof fn lemma_sum_never(a: Tag)
    ensures
        Tag::sum(a, Tag::never()) == Tag::never(),
        Tag::sum(Tag::never(), a) == Tag::never(),
{
}

/// `FOREVER` absorbs in a sum with every tag whose time is not `NEVER`.
pub proof fn lemma_sum_forever(a: Tag)
    requires
        a.time != NEVER,
    ensures
        Tag::sum(a, Tag::forever()) == Tag::forever(),
        Tag::sum(Tag::forever(), a) == Tag::forever(),
{
}

/// A missing or negative interval delays nothing, and no interval moves a
/// tag at time `NEVER`.
pub proof fn lemma_delay_identity(t: Tag, interval: Interval)
    ensures
        t.delay(None) == t,
        no_delay(interval) ==> t.delay(interval) == t,
        t.time == NEVER ==> t.delay(interval) == t,
        Tag::never().delay(interval) == Tag::never(),
{
}

/// For a positive interval `k` other than `FOREVER`, the strict delay of a
/// tag that is not at `NEVER` and that `k` does not carry to `FOREVER` lies
/// at time `t.time + k - 1` with the greatest microstep.
pub proof fn lemma_delay_strict_positive(t: Tag, k: i64)
    requires
        k > 0,
        k != FOREVER,
        t.time != NEVER,
        t.time < FOREVER - k,
    ensures
        t.delay_strict(Some(k)).microstep == u32::MAX,
        t.delay_strict(Some(k)).time == t.time + k - 1,
{
}

} // verus!
