//! From hotkey events to playback: the map from hotkey identifiers to
//! sounds, the filter that lets only presses through, and the per-sink
//! steps that play a sound on every open output.
use crate::sound::Sound;
use std::collections::HashMap;
use vstd::prelude::*;

verus! {

broadcast use vstd::std_specs::hash::group_hash_axioms;

/// Whether a hotkey went down or came up.
#[derive(Clone, Copy, Debug, PartialEq, Eq, Structural)]
pub enum KeyState {
    Pressed,
    Released,
}

/// One event delivered by the hotkey registry.
#[derive(Clone, Copy, Debug, PartialEq, Eq, Structural)]
pub struct HotkeyEvent {
    pub id: u32,
    pub state: KeyState,
}

/// The map that `ids[i] -> sounds[i]` for every `i` builds; where an
/// identifier repeats, the later binding stands.
pub open spec fn handler_map(ids: Seq<u32>, sounds: Seq<Seq<u8>>) -> Map<u32, Seq<u8>>
    recommends
        ids.len() == sounds.len(),
    decreases ids.len(),
{
    if ids.len() == 0 || sounds.len() == 0 {
        Map::empty()
    } else {
        handler_map(ids.drop_last(), sounds.drop_last()).insert(ids.last(), sounds.last())
    }
}

/// The views of a run of sounds.
pub open spec fn sound_views(sounds: Seq<Sound>) -> Seq<Seq<u8>> {
    sounds.map_values(|s: Sound| s@)
}

/// The sound that an event asks to play: one for a press of a mapped
/// identifier, none otherwise.
pub open spec fn chosen(m: Map<u32, Seq<u8>>, e: HotkeyEvent) -> Option<Seq<u8>> {
    if e.state == KeyState::Pressed && m.contains_key(e.id) {
        Some(m[e.id])
    } else {
        None
    }
}

/// The sounds played, in order, for a run of events.
pub open spec fn plays(m: Map<u32, Seq<u8>>, es: Seq<HotkeyEvent>) -> Seq<Seq<u8>>
    decreases es.len(),
{
    if es.len() == 0 {
        Seq::empty()
    } else {
        let before = plays(m, es.drop_last());
        match chosen(m, es.last()) {
            Some(s) => before.push(s),
            None => before,
        }
    }
}

/// Hotkey identifiers mapped to the sounds they play. Built once; read
/// only afterwards.
pub struct HandlerMap {
    handlers: HashMap<u32, Sound>,
}

impl View for HandlerMap {
    type V = Map<u32, Seq<u8>>;

    closed spec fn view(&self) -> Map<u32, Seq<u8>> {
        self.handlers@.map_values(|s: Sound| s@)
    }
}

impl HandlerMap {
    /// Maps `ids[i]` to `sounds[i]` for every `i`, sharing each sound's
    /// buffer.
    pub fn from_bindings(ids: &Vec<u32>, sounds: &Vec<Sound>) -> (r: HandlerMap)
        requires
            ids.len() == sounds.len(),
        ensures
            r@ == handler_map(ids@, sound_views(sounds@)),
    {
        let mut handlers: HashMap<u32, Sound> = HashMap::new();
        let mut i: usize = 0;
        while i < ids.len()
            invariant
                ids.len() == sounds.len(),
                i <= ids.len(),
                handlers@.map_values(|s: Sound| s@) == handler_map(
                    ids@.subrange(0, i as int),
                    sound_views(sounds@).subrange(0, i as int),
                ),
            decreases ids.len() - i,
        {
            let s = sounds[i].share();
            let ghost before = handlers@;
            handlers.insert(ids[i], s);
            proof {
                let ids_i = ids@.subrange(0, i + 1);
                let snd_i = sound_views(sounds@).subrange(0, i + 1);
                assert(ids_i.drop_last() =~= ids@.subrange(0, i as int));
                assert(snd_i.drop_last() =~= sound_views(sounds@).subrange(0, i as int));
                assert(handlers@.map_values(|s: Sound| s@) =~= before.map_values(
                    |s: Sound| s@,
                ).insert(ids@[i as int], sounds@[i as int]@));
            }
            i = i + 1;
        }
        assert(ids@.subrange(0, ids.len() as int) =~= ids@);
        assert(sound_views(sounds@).subrange(0, ids.len() as int) =~= sound_views(sounds@));
        HandlerMap { handlers }
    }

    /// Whether `id` has a sound.
    pub fn contains(&self, id: u32) -> (r: bool)
        ensures
            r == self@.contains_key(id),
    {
        self.handlers.contains_key(&id)
    }

    /// The sound to play for an event: the mapped sound for a press of a
    /// mapped identifier; nothing for a release, whatever its identifier,
    /// nor for an identifier with no sound.
    pub fn dispatch(&self, e: HotkeyEvent) -> (r: Option<&Sound>)
        ensures
            r is Some <==> chosen(self@, e) is Some,
            r is Some ==> r->0@ == chosen(self@, e)->0,
            e.state == KeyState::Released ==> r is None,
            !self@.contains_key(e.id) ==> r is None,
    {
        match e.state {
            KeyState::Released => None,
            KeyState::Pressed => self.handlers.get(&e.id),
        }
    }
}

/// One step of playing a sound on the open sinks, each named by its index.
#[derive(Clone, Copy, Debug, PartialEq, Eq, Structural)]
pub enum SinkCommand {
    /// Stop what the sink plays and drop what it has queued.
    Stop(usize),
    /// Queue a fresh decode stream of the sound on the sink.
    Append(usize),
    /// Let the sink play.
    Play(usize),
}

/// The steps that play one sound on sinks `0..n`: for each sink in turn,
/// stop it, queue the sound, and play.
pub open spec fn play_plan(n: nat) -> Seq<SinkCommand>
    decreases n,
{
    if n == 0 {
        Seq::empty()
    } else {
        let k = (n - 1) as usize;
        play_plan((n - 1) as nat).push(SinkCommand::Stop(k)).push(SinkCommand::Append(k)).push(
            SinkCommand::Play(k),
        )
    }
}

/// The steps that play a sound on `n_sinks` sinks; none where no sink is
/// open.
pub fn play_commands(n_sinks: usize) -> (r: Vec<SinkCommand>)
    requires
        n_sinks <= usize::MAX / 3,
    ensures
        r@ == play_plan(n_sinks as nat),
{
    let mut r: Vec<SinkCommand> = Vec::new();
    let mut i: usize = 0;
    while i < n_sinks
        invariant
            i <= n_sinks,
            r@ == play_plan(i as nat),
        decreases n_sinks - i,
    {
        r.push(SinkCommand::Stop(i));
        r.push(SinkCommand::Append(i));
        r.push(SinkCommand::Play(i));
        i = i + 1;
    }
    r
}

/// Playing a sound stops every sink before queueing on it: sink `i` gets
/// exactly one stream, at step `3 * i + 1`, and the step before it stops
/// that sink; nothing queued earlier is left playing.
pub proof fn lemma_stop_before_play(n: nat)
    requires
        n <= usize::MAX,
    ensures
        play_plan(n).len() == 3 * n,
        forall|i: int|
            #![trigger play_plan(n)[3 * i]]
            0 <= i < n ==> play_plan(n)[3 * i] == SinkCommand::Stop(i as usize)
                && play_plan(n)[3 * i + 1] == SinkCommand::Append(i as usize)
                && play_plan(n)[3 * i + 2] == SinkCommand::Play(i as usize),
        forall|k: int|
            0 <= k < play_plan(n).len() && (#[trigger] play_plan(n)[k]) is Append ==> k == 3
                * play_plan(n)[k]->Append_0 + 1,
    decreases n,
{
    if n > 0 {
        lemma_stop_before_play((n - 1) as nat);
        let p = play_plan((n - 1) as nat);
        assert forall|k: int|
            0 <= k < play_plan(n).len() && (#[trigger] play_plan(n)[k]) is Append implies k == 3
                * play_plan(n)[k]->Append_0 + 1 by {
            if k < p.len() {
                assert(play_plan(n)[k] == p[k]);
            } else {
                assert(k - p.len() < 3);
            }
        }
        assert forall|i: int| 0 <= i < n implies #[trigger] play_plan(n)[3 * i] == SinkCommand::Stop(
            i as usize,
        ) && play_plan(n)[3 * i + 1] == SinkCommand::Append(i as usize) && play_plan(n)[3 * i + 2]
            == SinkCommand::Play(i as usize) by {
            if i < n - 1 {
                assert(p[3 * i] == SinkCommand::Stop(i as usize));
            }
        }
    }
}

/// With distinct identifiers, the map holds exactly one entry per binding:
/// its keys are the identifiers, one per binding, and each maps to the
/// sound of its binding.
pub proof fn lemma_one_entry_per_binding(ids: Seq<u32>, sounds: Seq<Seq<u8>>)
    requires
        ids.len() == sounds.len(),
        ids.no_duplicates(),
    ensures
        handler_map(ids, sounds).dom().finite(),
        handler_map(ids, sounds).dom().len() == ids.len(),
        forall|i: int|
            0 <= i < ids.len() ==> #[trigger] handler_map(ids, sounds).contains_key(ids[i])
                && handler_map(ids, sounds)[ids[i]] == sounds[i],
        forall|id: u32|
            #[trigger] handler_map(ids, sounds).contains_key(id) ==> ids.contains(id),
    decreases ids.len(),
{
    if ids.len() > 0 {
        let (pi, ps) = (ids.drop_last(), sounds.drop_last());
        lemma_one_entry_per_binding(pi, ps);
        let m = handler_map(pi, ps);
        assert(!m.contains_key(ids.last())) by {
            if m.contains_key(ids.last()) {
                let j = choose|j: int| 0 <= j < pi.len() && pi[j] == ids.last();
                assert(ids[j] == ids[ids.len() - 1]);
            }
        }
        assert(handler_map(ids, sounds).dom() =~= m.dom().insert(ids.last()));
        assert forall|i: int| 0 <= i < ids.len() implies #[trigger] handler_map(
            ids,
            sounds,
        ).contains_key(ids[i]) && handler_map(ids, sounds)[ids[i]] == sounds[i] by {
            if i < ids.len() - 1 {
                assert(pi[i] == ids[i]);
                assert(ids[i] != ids.last());
            }
        }
        assert forall|id: u32| #[trigger] handler_map(ids, sounds).contains_key(id) implies ids.contains(
            id,
        ) by {
            if id != ids.last() {
                let j = choose|j: int| 0 <= j < pi.len() && pi[j] == id;
                assert(ids[j] == id);
            } else {
                assert(ids[ids.len() - 1] == id);
            }
        }
    }
}

/// Events are handled one after another: the plays for two runs of
/// events in a row are the plays for the first run, then those for the
/// second.
pub proof fn lemma_plays_append(m: Map<u32, Seq<u8>>, a: Seq<HotkeyEvent>, b: Seq<HotkeyEvent>)
    ensures
        plays(m, a + b) == plays(m, a) + plays(m, b),
    decreases b.len(),
{
    if b.len() == 0 {
        assert(a + b =~= a);
        assert(plays(m, a) + plays(m, b) =~= plays(m, a));
    } else {
        lemma_plays_append(m, a, b.drop_last());
        assert((a + b).drop_last() =~= a + b.drop_last());
        assert((a + b).last() == b.last());
        match chosen(m, b.last()) {
            Some(s) => {
                assert(plays(m, a + b) =~= plays(m, a) + plays(m, b));
            },
            None => {},
        }
    }
}

/// Presses of mapped identifiers play exactly once each, in the order
/// they come, each the sound its identifier maps to.
pub proof fn lemma_presses_play_in_order(m: Map<u32, Seq<u8>>, es: Seq<HotkeyEvent>)
    requires
        forall|i: int|
            0 <= i < es.len() ==> (#[trigger] es[i]).state == KeyState::Pressed && m.contains_key(
                es[i].id,
            ),
    ensures
        plays(m, es).len() == es.len(),
        forall|i: int| 0 <= i < es.len() ==> #[trigger] plays(m, es)[i] == m[es[i].id],
    decreases es.len(),
{
    if es.len() > 0 {
        let init = es.drop_last();
        assert forall|i: int| 0 <= i < init.len() implies (#[trigger] init[i]).state
            == KeyState::Pressed && m.contains_key(init[i].id) by {
            assert(init[i] == es[i]);
        }
        lemma_presses_play_in_order(m, init);
        assert(es.last() == es[es.len() - 1]);
        assert forall|i: int| 0 <= i < es.len() implies #[trigger] plays(m, es)[i] == m[es[i].id] by {
            if i < es.len() - 1 {
                assert(init[i] == es[i]);
            }
        }
    }
}

/// Releases never play, whatever their identifier.
pub proof fn lemma_releases_never_play(m: Map<u32, Seq<u8>>, es: Seq<HotkeyEvent>)
    requires
        forall|i: int| 0 <= i < es.len() ==> (#[trigger] es[i]).state == KeyState::Released,
    ensures
        plays(m, es) == Seq::<Seq<u8>>::empty(),
    decreases es.len(),
{
    if es.len() > 0 {
        let init = es.drop_last();
        assert forall|i: int| 0 <= i < init.len() implies (#[trigger] init[i]).state
            == KeyState::Released by {
            assert(init[i] == es[i]);
        }
        lemma_releases_never_play(m, init);
        assert(es.last() == es[es.len() - 1]);
    }
}

/// An event whose identifier has no sound plays nothing and leaves what
/// every later event does as it was: removing it changes no play.
pub proof fn lemma_unmapped_is_ignored(
    m: Map<u32, Seq<u8>>,
    before: Seq<HotkeyEvent>,
    e: HotkeyEvent,
    after: Seq<HotkeyEvent>,
)
    requires
        !m.contains_key(e.id),
    ensures
        plays(m, before.push(e) + after) == plays(m, before + after),
{
    lemma_plays_append(m, before.push(e), after);
    lemma_plays_append(m, before, after);
    assert(before.push(e).drop_last() =~= before);
}

} // verus!
