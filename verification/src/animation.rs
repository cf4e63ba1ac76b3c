//! Timed overlay animations: named spells made of frames, triggered by
//! events and selected by elapsed time. Time enters as a millisecond
//! parameter; loading frame files and rendering stay outside.

use vstd::prelude::*;
use crate::strutil::str_eq;

verus! {

/// One frame of a spell: what to show and from when, with a blink rate for
/// overlay text.
pub struct Frame {
    pub frame: u64,
    pub text: Option<String>,
    pub file: Option<String>,
    pub image: Option<String>,
    pub overlay: bool,
    pub blink_rate_ms: u64,
}

/// The blink rate used when a frame names none.
pub fn default_blink_rate() -> (r: u64)
    ensures
        r == 200,
{
    200
}

/// A named animation: its trigger name, total duration and frames.
pub struct Spell {
    pub trigger: String,
    pub duration_ms: u64,
    pub frames: Vec<Frame>,
}

/// One spell stored under its trigger name.
pub struct SpellEntry {
    pub name: String,
    pub spell: Spell,
}

/// A running animation: the spell and when it started.
pub struct ActiveAnimation {
    pub spell: Spell,
    pub start_ms: u64,
}

/// The animation engine: the loaded spells and the running animation, if
/// any.
pub struct AnimationEngine {
    pub spells: Vec<SpellEntry>,
    pub active_animation: Option<ActiveAnimation>,
}

/// The ghost mirror of a frame.
pub ghost struct FrameView {
    pub frame: u64,
    pub text: Option<Seq<char>>,
    pub file: Option<Seq<char>>,
    pub image: Option<Seq<char>>,
    pub overlay: bool,
    pub blink_rate_ms: u64,
}

/// The ghost mirror of a frame.
pub open spec fn frame_view(f: Frame) -> FrameView {
    FrameView {
        frame: f.frame,
        text: match f.text {
            Option::None => None,
            Option::Some(t) => Some(t@),
        },
        file: match f.file {
            Option::None => None,
            Option::Some(t) => Some(t@),
        },
        image: match f.image {
            Option::None => None,
            Option::Some(t) => Some(t@),
        },
        overlay: f.overlay,
        blink_rate_ms: f.blink_rate_ms,
    }
}

/// The ghost mirrors of a frame list.
pub open spec fn frame_views(fs: Seq<Frame>) -> Seq<FrameView> {
    Seq::new(fs.len(), |i: int| frame_view(fs[i]))
}

/// The index of the first spell with the given name, or -1.
pub open spec fn spell_index(ss: Seq<SpellEntry>, n: Seq<char>) -> int
    decreases ss.len(),
{
    if ss.len() == 0 {
        -1
    } else if ss[0].name@ == n {
        0
    } else {
        let r = spell_index(ss.drop_first(), n);
        if r < 0 {
            -1
        } else {
            r + 1
        }
    }
}

/// Characterizes `spell_index`: the first matching index, or -1.
pub proof fn lemma_spell_index(ss: Seq<SpellEntry>, n: Seq<char>)
    ensures
        spell_index(ss, n) >= 0 ==> {
            let i = spell_index(ss, n);
            i < ss.len() && ss[i].name@ == n && forall|j: int| 0 <= j < i ==> ss[j].name@ != n
        },
        spell_index(ss, n) < 0 ==> forall|j: int| 0 <= j < ss.len() ==> ss[j].name@ != n,
    decreases ss.len(),
{
    if ss.len() > 0 && ss[0].name@ != n {
        lemma_spell_index(ss.drop_first(), n);
        let r = spell_index(ss.drop_first(), n);
        if r >= 0 {
            assert(ss[r + 1] == ss.drop_first()[r]);
            assert forall|j: int| 0 <= j < r + 1 implies ss[j].name@ != n by {
                if j > 0 {
                    assert(ss.drop_first()[j - 1] == ss[j]);
                }
            }
        } else {
            assert forall|j: int| 0 <= j < ss.len() implies ss[j].name@ != n by {
                if j > 0 {
                    assert(ss.drop_first()[j - 1] == ss[j]);
                }
            }
        }
    }
}

/// Milliseconds elapsed since `start_ms`, clamped at zero for clocks that
/// stand before the start.
pub open spec fn elapsed_of(now_ms: u64, start_ms: u64) -> u64 {
    if now_ms >= start_ms {
        (now_ms - start_ms) as u64
    } else {
        0u64
    }
}

/// The running animation has not yet outlived its spell.
pub open spec fn spec_is_active(e: AnimationEngine, now_ms: u64) -> bool {
    match e.active_animation {
        Option::None => false,
        Option::Some(a) => elapsed_of(now_ms, a.start_ms) <= a.spell.duration_ms,
    }
}

/// Whether blinking text is in its visible half-period.
pub open spec fn blink_visible(elapsed: u64, rate: u64) -> bool {
    rate == 0 || (elapsed / rate) % 2 == 0
}

/// The overlay text to show: the first overlay frame already due decides,
/// showing its text or hiding it by the blink phase.
pub open spec fn overlay_choice(fs: Seq<FrameView>, elapsed: u64) -> Option<Seq<char>>
    decreases fs.len(),
{
    if fs.len() == 0 {
        None
    } else {
        let f = fs[0];
        if f.overlay && elapsed >= f.frame && f.text is Some {
            if blink_visible(elapsed, f.blink_rate_ms) {
                Some(f.text->0)
            } else {
                None
            }
        } else {
            overlay_choice(fs.drop_first(), elapsed)
        }
    }
}

/// The index of the last non-overlay frame already due, or -1.
pub open spec fn pick_frame(fs: Seq<FrameView>, elapsed: u64) -> int
    decreases fs.len(),
{
    if fs.len() == 0 {
        -1
    } else {
        let last = fs.last();
        if !last.overlay && elapsed >= last.frame {
            fs.len() - 1
        } else {
            pick_frame(fs.drop_last(), elapsed)
        }
    }
}

impl AnimationEngine {
    /// An engine with no spells and nothing running.
    pub fn new() -> (r: Self)
        ensures
            r.spells@.len() == 0,
            r.active_animation is None,
    {
        AnimationEngine { spells: Vec::new(), active_animation: None }
    }

    /// Stores a spell under its trigger name.
    pub fn insert_spell(&mut self, name: String, spell: Spell)
        ensures
            final(self).spells@.len() == old(self).spells@.len() + 1,
            final(self).spells@.last().name@ == name@,
            final(self).spells@.last().spell == spell,
            forall|j: int|
                0 <= j < old(self).spells@.len() ==> final(self).spells@[j] == old(self).spells@[j],
            final(self).active_animation == old(self).active_animation,
    {
        self.spells.push(SpellEntry { name, spell });
    }

    /// Starts the spell stored under `trigger_name`, if any, at `now_ms`.
    pub fn trigger(&mut self, trigger_name: &str, now_ms: u64)
        ensures
            final(self).spells == old(self).spells,
            ({
                let si = spell_index(old(self).spells@, trigger_name@);
                if si >= 0 {
                    final(self).active_animation matches Some(a) && a.start_ms == now_ms
                        && a.spell.trigger@ == old(self).spells@[si].spell.trigger@
                        && a.spell.duration_ms == old(self).spells@[si].spell.duration_ms
                        && frame_views(a.spell.frames@) == frame_views(
                        old(self).spells@[si].spell.frames@,
                    )
                } else {
                    final(self).active_animation == old(self).active_animation
                }
            }),
    {
        proof {
            lemma_spell_index(self.spells@, trigger_name@);
        }
        let ghost sv = self.spells@;
        let mut i: usize = 0;
        while i < self.spells.len()
            invariant
                i <= self.spells@.len(),
                self.spells == old(self).spells,
                self.active_animation == old(self).active_animation,
                sv == self.spells@,
                forall|j: int| 0 <= j < i ==> sv[j].name@ != trigger_name@,
            decreases self.spells@.len() - i,
        {
            let e: &SpellEntry = &self.spells[i];
            if str_eq(e.name.as_str(), trigger_name) {
                proof {
                    lemma_spell_index(sv, trigger_name@);
                    let si = spell_index(sv, trigger_name@);
                    if si < 0 {
                        assert(sv[i as int].name@ != trigger_name@);
                        assert(false);
                    } else if si < i {
                        assert(sv[si].name@ != trigger_name@);
                        assert(false);
                    } else if si > i {
                        assert(sv[i as int].name@ != trigger_name@);
                        assert(false);
                    }
                }
                let spell = clone_spell(&e.spell);
                self.active_animation = Some(ActiveAnimation { spell, start_ms: now_ms });
                return ;
            }
            i += 1;
        }
        proof {
            lemma_spell_index(sv, trigger_name@);
            let si = spell_index(sv, trigger_name@);
            if si >= 0 {
                assert(sv[si].name@ != trigger_name@);
                assert(false);
            }
        }
    }

    /// Whether an animation is running and not yet expired at `now_ms`.
    pub fn is_active(&self, now_ms: u64) -> (r: bool)
        ensures
            r == spec_is_active(*self, now_ms),
    {
        match &self.active_animation {
            None => false,
            Some(a) => {
                let elapsed = if now_ms >= a.start_ms {
                    now_ms - a.start_ms
                } else {
                    0
                };
                elapsed <= a.spell.duration_ms
            },
        }
    }

    /// Clears the running animation once its spell's duration has passed.
    pub fn update(&mut self, now_ms: u64)
        ensures
            final(self).spells == old(self).spells,
            spec_is_active(*old(self), now_ms) ==> final(self).active_animation == old(
                self,
            ).active_animation,
            !spec_is_active(*old(self), now_ms) ==> final(self).active_animation is None,
    {
        let expired = match &self.active_animation {
            None => true,
            Some(a) => {
                let elapsed = if now_ms >= a.start_ms {
                    now_ms - a.start_ms
                } else {
                    0
                };
                elapsed > a.spell.duration_ms
            },
        };
        if expired {
            self.active_animation = None;
        }
    }

    /// Stops the running animation.
    pub fn clear(&mut self)
        ensures
            final(self).spells == old(self).spells,
            final(self).active_animation is None,
    {
        self.active_animation = None;
    }

    /// The overlay text to draw at `now_ms`: the first due overlay frame's
    /// text, hidden in the off half of its blink period.
    pub fn get_overlay_frame(&self, now_ms: u64) -> (r: Option<String>)
        ensures
            ({
                match &self.active_animation {
                    Option::None => r is None,
                    Option::Some(a) => {
                        let choice = overlay_choice(
                            frame_views(a.spell.frames@),
                            elapsed_of(now_ms, a.start_ms),
                        );
                        (r is Some <==> choice is Some) && (r is Some ==> r->0@ == choice->0)
                    },
                }
            }),
    {
        let a = match &self.active_animation {
            None => {
                return None;
            },
            Some(a) => a,
        };
        let elapsed = if now_ms >= a.start_ms {
            now_ms - a.start_ms
        } else {
            0
        };
        let ghost fv = frame_views(a.spell.frames@);
        let mut i: usize = 0;
        assert(fv.skip(0) =~= fv);
        assert(elapsed == elapsed_of(now_ms, a.start_ms));
        while i < a.spell.frames.len()
            invariant
                i <= a.spell.frames@.len(),
                fv == frame_views(a.spell.frames@),
                fv.len() == a.spell.frames@.len(),
                self.active_animation matches Some(aa) && aa == *a,
                elapsed == elapsed_of(now_ms, a.start_ms),
                overlay_choice(fv, elapsed) == overlay_choice(fv.skip(i as int), elapsed),
            decreases a.spell.frames@.len() - i,
        {
            let f: &Frame = &a.spell.frames[i];
            proof {
                assert(fv[i as int] == frame_view(a.spell.frames@[i as int]));
                assert(fv.skip(i as int)[0] == fv[i as int]);
                assert(fv.skip(i as int).drop_first() =~= fv.skip(i as int + 1));
            }
            let due = f.overlay && elapsed >= f.frame;
            match &f.text {
                Some(t) => {
                    if due {
                        let visible = f.blink_rate_ms == 0 || (elapsed / f.blink_rate_ms) % 2
                            == 0;
                        assert(visible == blink_visible(elapsed, fv[i as int].blink_rate_ms));
                        if visible {
                            assert(overlay_choice(fv, elapsed) == Some(t@));
                            return Some(t.clone());
                        } else {
                            assert(overlay_choice(fv, elapsed) is None);
                            return None;
                        }
                    }
                },
                None => {},
            }
            i += 1;
        }
        assert(fv.skip(a.spell.frames@.len() as int) =~= Seq::<FrameView>::empty());
        None
    }

    /// The non-overlay frame to draw at `now_ms`: the last frame already
    /// due, while the animation is running.
    pub fn select_current_frame(&self, now_ms: u64) -> (r: Option<&Frame>)
        ensures
            ({
                match &self.active_animation {
                    Option::None => r is None,
                    Option::Some(a) => {
                        let elapsed = elapsed_of(now_ms, a.start_ms);
                        if elapsed > a.spell.duration_ms {
                            r is None
                        } else {
                            let pi = pick_frame(frame_views(a.spell.frames@), elapsed);
                            (r is Some <==> pi >= 0) && (r is Some ==> frame_view(*r->0)
                                == frame_views(a.spell.frames@)[pi])
                        }
                    },
                }
            }),
    {
        let a = match &self.active_animation {
            None => {
                return None;
            },
            Some(a) => a,
        };
        let elapsed = if now_ms >= a.start_ms {
            now_ms - a.start_ms
        } else {
            0
        };
        if elapsed > a.spell.duration_ms {
            return None;
        }
        let ghost fv = frame_views(a.spell.frames@);
        let mut k: usize = a.spell.frames.len();
        assert(fv.take(k as int) =~= fv);
        assert(elapsed == elapsed_of(now_ms, a.start_ms));
        while k > 0
            invariant
                k <= a.spell.frames@.len(),
                fv == frame_views(a.spell.frames@),
                fv.len() == a.spell.frames@.len(),
                self.active_animation matches Some(aa) && aa == *a,
                elapsed == elapsed_of(now_ms, a.start_ms),
                elapsed <= a.spell.duration_ms,
                pick_frame(fv, elapsed) == pick_frame(fv.take(k as int), elapsed),
            decreases k,
        {
            let f: &Frame = &a.spell.frames[k - 1];
            proof {
                assert(fv[k - 1] == frame_view(a.spell.frames@[k - 1]));
                assert(fv.take(k as int).last() == fv[k - 1]);
                assert(fv.take(k as int).drop_last() =~= fv.take(k as int - 1));
            }
            if !f.overlay && elapsed >= f.frame {
                assert(pick_frame(fv.take(k as int), elapsed) == k - 1);
                return Some(f);
            }
            k -= 1;
        }
        assert(fv.take(0) =~= Seq::<FrameView>::empty());
        None
    }
}

/// Copies a frame, keeping its ghost mirror.
fn clone_frame(f: &Frame) -> (r: Frame)
    ensures
        frame_view(r) == frame_view(*f),
{
    Frame {
        frame: f.frame,
        text: clone_opt_string(&f.text),
        file: clone_opt_string(&f.file),
        image: clone_opt_string(&f.image),
        overlay: f.overlay,
        blink_rate_ms: f.blink_rate_ms,
    }
}

/// Copies an optional string exactly.
fn clone_opt_string(o: &Option<String>) -> (r: Option<String>)
    ensures
        r is Some <==> o is Some,
        r is Some ==> r->0 == o->0,
{
    match o {
        Some(s) => Some(s.clone()),
        None => None,
    }
}

/// Copies a spell, keeping its trigger, duration and frame mirrors.
fn clone_spell(s: &Spell) -> (r: Spell)
    ensures
        r.trigger@ == s.trigger@,
        r.duration_ms == s.duration_ms,
        frame_views(r.frames@) == frame_views(s.frames@),
{
    let mut frames: Vec<Frame> = Vec::new();
    let mut i: usize = 0;
    while i < s.frames.len()
        invariant
            i <= s.frames@.len(),
            frames@.len() == i,
            forall|j: int|
                0 <= j < i ==> frame_view(#[trigger] frames@[j]) == frame_view(s.frames@[j]),
        decreases s.frames@.len() - i,
    {
        let f = clone_frame(&s.frames[i]);
        frames.push(f);
        i += 1;
    }
    let r = Spell { trigger: s.trigger.clone(), duration_ms: s.duration_ms, frames };
    proof {
        assert(frame_views(r.frames@) =~= frame_views(s.frames@));
    }
    r
}

} // verus!
