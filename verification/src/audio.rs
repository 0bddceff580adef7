//! Which sounds to stop and whether to start one, from an audio source's
//! requests; the audio output itself is the caller's.
use vstd::prelude::*;

verus! {

/// Names a playing sound.
#[derive(Debug, Clone, Copy, PartialEq, Eq, Structural, Hash)]
pub struct SoundId(pub usize);

/// An audio source's playback requests and state.
#[derive(Debug, Clone, Copy, PartialEq, Eq, Structural)]
pub struct AudioPlayback {
    pub has_asset: bool,
    pub play_on_awake: bool,
    pub play_requested: bool,
    pub stop_requested: bool,
    pub playing: bool,
    pub sound_id: Option<SoundId>,
}

/// What the audio output has to do for one source this frame.
#[derive(Debug, PartialEq, Eq)]
pub struct AudioPlan {
    /// Sounds to stop, in order.
    pub stop: Vec<SoundId>,
    /// Whether to start the source's sound (then report the result with
    /// `finish_play`).
    pub play: bool,
}

/// Asks for the sound to start when the source starts, if it plays on
/// awake and has a sound.
pub fn start_playback(p: &mut AudioPlayback)
    ensures
        *final(p) == (AudioPlayback {
            play_requested: old(p).play_requested || (old(p).play_on_awake && old(p).has_asset),
            ..*old(p)
        }),
{
    if p.play_on_awake && p.has_asset {
        p.play_requested = true;
    }
}

/// Handles the source's requests: a stop request stops its sound; a play
/// request (when it has a sound) stops the sound still playing and asks
/// for a new one.
pub fn plan_playback(p: &mut AudioPlayback) -> (r: AudioPlan)
    ensures
        ({
            let stopping = old(p).stop_requested;
            let first_stop: Seq<SoundId> = if stopping && old(p).sound_id is Some { seq![old(p).sound_id->0] } else { seq![] };
            let id_after_stop = if stopping { None } else { old(p).sound_id };
            let playing_after_stop = if stopping { false } else { old(p).playing };
            let play = old(p).play_requested && old(p).has_asset;
            let second_stop: Seq<SoundId> = if play && id_after_stop is Some { seq![id_after_stop->0] } else { seq![] };
            &&& r.stop@ == first_stop + second_stop
            &&& r.play == play
            &&& final(p).stop_requested == (if stopping { false } else { old(p).stop_requested })
            &&& final(p).play_requested == (if play { false } else { old(p).play_requested })
            &&& final(p).sound_id == (if play { None } else { id_after_stop })
            &&& final(p).playing == playing_after_stop
            &&& final(p).has_asset == old(p).has_asset
            &&& final(p).play_on_awake == old(p).play_on_awake
        }),
{
    let mut stop: Vec<SoundId> = Vec::new();
    if p.stop_requested {
        if let Some(id) = p.sound_id {
            stop.push(id);
        }
        p.sound_id = None;
        p.playing = false;
        p.stop_requested = false;
    }
    let play = p.play_requested && p.has_asset;
    if play {
        if let Some(id) = p.sound_id {
            stop.push(id);
        }
        p.sound_id = None;
        p.play_requested = false;
    }
    let r = AudioPlan { stop, play };
    proof {
        let stopping = old(p).stop_requested;
        let first_stop: Seq<SoundId> = if stopping && old(p).sound_id is Some { seq![old(p).sound_id->0] } else { seq![] };
        let id_after_stop = if stopping { None } else { old(p).sound_id };
        let second_stop: Seq<SoundId> = if play && id_after_stop is Some { seq![id_after_stop->0] } else { seq![] };
        assert(r.stop@ =~= first_stop + second_stop);
    }
    r
}

/// Records what starting the sound gave: a playing sound, or nothing.
pub fn finish_play(p: &mut AudioPlayback, started: Option<SoundId>)
    ensures
        *final(p) == (match started {
            Some(id) => AudioPlayback { sound_id: Some(id), playing: true, ..*old(p) },
            None => *old(p),
        }),
{
    if let Some(id) = started {
        p.sound_id = Some(id);
        p.playing = true;
    }
}

} // verus!
