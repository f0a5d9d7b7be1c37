//! Holding the files of a torrent against a binstruct file.
use crate::binstruct::{policy_models, PolicyModel, TrackPolicy};
use crate::bytes::bytes_equal;
use crate::text::{decimal, push_decimal};
use vstd::prelude::*;
use vstd::string::*;

verus! {

/// What was found of a raw file. Errors are texts.
pub enum RawState {
    Missing(String),
    Present { path: String, hash: Result<[u8; 32], String>, size: Result<u64, String> },
}

/// What was found of a frame index. Errors are texts.
pub enum VfrState {
    Missing(String),
    Present { path: String, hash: Result<[u8; 32], String> },
}

/// What was found of the files of a track.
pub struct TrackState {
    pub raw: RawState,
    /// Looked at only where the policy of the track has a digest of a frame index.
    pub vfr: VfrState,
}

/// The beginning of every message on a track.
pub open spec fn track_label(id: u64) -> Seq<char> {
    "track "@ + decimal(id as nat) + ": "@
}

/// What is wrong with the digest of a raw file.
pub open spec fn raw_hash_faults(
    p: PolicyModel,
    path: Seq<char>,
    hash: Result<[u8; 32], String>,
) -> Seq<Seq<char>> {
    match hash {
        Err(e) => seq![track_label(p.track_id) + "SHA-256 error on "@ + path + ": "@ + e@],
        Ok(h) => if h@ != p.raw_file_hash {
            seq![track_label(p.track_id) + "raw file hash mismatch ("@ + path + ")"@]
        } else {
            Seq::empty()
        },
    }
}

/// What is wrong with the size of a raw file: where all frames have one size, the file
/// must be as long as all of them.
pub open spec fn size_faults(p: PolicyModel, size: Result<u64, String>) -> Seq<Seq<char>> {
    if p.is_vbr || p.cbr_frame_size is None {
        Seq::empty()
    } else {
        let expected = p.frame_count * p.cbr_frame_size->0;
        match size {
            Err(e) => seq![track_label(p.track_id) + "stat error: "@ + e@],
            Ok(n) => if n != expected {
                seq![
                    track_label(p.track_id) + "CBR size mismatch: file="@ + decimal(n as nat)
                        + " expected="@ + decimal(expected as nat),
                ]
            } else {
                Seq::empty()
            },
        }
    }
}

/// What is wrong with a frame index.
pub open spec fn vfr_faults(p: PolicyModel, vfr: VfrState) -> Seq<Seq<char>> {
    if p.vfr_file_hash is None {
        Seq::empty()
    } else {
        match vfr {
            VfrState::Missing(e) => seq![track_label(p.track_id) + "VFR not found: "@ + e@],
            VfrState::Present { path, hash } => match hash {
                Err(e) => seq![track_label(p.track_id) + "VFR SHA-256 error: "@ + e@],
                Ok(h) => if h@ != p.vfr_file_hash->0 {
                    seq![track_label(p.track_id) + "VFR hash mismatch ("@ + path@ + ")"@]
                } else {
                    Seq::empty()
                },
            },
        }
    }
}

/// What is wrong with the files of a track. Without a raw file nothing else is looked at.
pub open spec fn track_faults(p: PolicyModel, s: TrackState) -> Seq<Seq<char>> {
    match s.raw {
        RawState::Missing(e) => seq![track_label(p.track_id) + e@],
        RawState::Present { path, hash, size } => raw_hash_faults(p, path@, hash) + size_faults(
            p,
            size,
        ) + vfr_faults(p, s.vfr),
    }
}

/// What is wrong with the files of the first `n` tracks.
pub open spec fn faults_upto(
    policies: Seq<PolicyModel>,
    states: Seq<TrackState>,
    n: nat,
) -> Seq<Seq<char>>
    decreases n,
{
    if n == 0 {
        Seq::empty()
    } else {
        faults_upto(policies, states, (n - 1) as nat) + track_faults(
            policies[n - 1],
            states[n - 1],
        )
    }
}

/// Messages with sequences for strings.
pub open spec fn message_views(v: Seq<String>) -> Seq<Seq<char>> {
    Seq::new(v.len(), |i: int| v[i]@)
}

/// Whether the files of a track are those that a binstruct file was made from.
pub open spec fn intact(p: PolicyModel, s: TrackState) -> bool {
    &&& match s.raw {
        RawState::Missing(_) => false,
        RawState::Present { path, hash, size } => {
            &&& hash is Ok && hash->Ok_0@ == p.raw_file_hash
            &&& !p.is_vbr && p.cbr_frame_size is Some ==> {
                &&& size is Ok
                &&& size->Ok_0 == p.frame_count * p.cbr_frame_size->0
            }
        },
    }
    &&& p.vfr_file_hash is Some ==> match s.vfr {
        VfrState::Missing(_) => false,
        VfrState::Present { path, hash } => hash is Ok && hash->Ok_0@ == p.vfr_file_hash->0,
    }
}

/// There is nothing to say on the files of a track exactly if they have the digests and
/// the size that its policy tells.
pub proof fn no_fault_if_intact(p: PolicyModel, s: TrackState)
    ensures
        track_faults(p, s).len() == 0 <==> intact(p, s),
{
}

/// There is nothing to say on any track exactly if the files of each are intact.
pub proof fn no_faults_if_all_intact(policies: Seq<PolicyModel>, states: Seq<TrackState>, n: nat)
    ensures
        faults_upto(policies, states, n).len() == 0 <==> forall|i: int|
            0 <= i < n ==> #[trigger] intact(policies[i], states[i]),
    decreases n,
{
    if n > 0 {
        no_faults_if_all_intact(policies, states, (n - 1) as nat);
        no_fault_if_intact(policies[n - 1], states[n - 1]);
        assert(faults_upto(policies, states, n).len() == faults_upto(
            policies,
            states,
            (n - 1) as nat,
        ).len() + track_faults(policies[n - 1], states[n - 1]).len());
        if forall|i: int| 0 <= i < n ==> #[trigger] intact(policies[i], states[i]) {
            assert(intact(policies[n - 1], states[n - 1]));
        }
    }
}

fn label(id: u64) -> (r: String)
    ensures
        r@ == track_label(id),
{
    let mut s: String = "track ".to_owned();
    push_decimal(&mut s, id as u128);
    s.append(": ");
    s
}

fn note(errors: &mut Vec<String>, s: String)
    ensures
        message_views(final(errors)@) == message_views(old(errors)@).push(s@),
{
    errors.push(s);
    assert(message_views(errors@) =~= message_views(old(errors)@).push(s@));
}

fn check_raw_hash(
    policy: &TrackPolicy,
    path: &String,
    hash: &Result<[u8; 32], String>,
    errors: &mut Vec<String>,
)
    ensures
        message_views(final(errors)@) == message_views(old(errors)@) + raw_hash_faults(
            policy@,
            path@,
            *hash,
        ),
{
    match hash {
        Err(e) => {
            let mut s: String = label(policy.track_id);
            s.append("SHA-256 error on ");
            s.append(path.as_str());
            s.append(": ");
            s.append(e.as_str());
            note(errors, s);
        },
        Ok(h) => {
            if !bytes_equal(h, &policy.raw_file_hash) {
                let mut s: String = label(policy.track_id);
                s.append("raw file hash mismatch (");
                s.append(path.as_str());
                s.append(")");
                note(errors, s);
            }
        },
    }
    assert(message_views(errors@) =~= message_views(old(errors)@) + raw_hash_faults(
        policy@,
        path@,
        *hash,
    ));
}

fn check_size(policy: &TrackPolicy, size: &Result<u64, String>, errors: &mut Vec<String>)
    ensures
        message_views(final(errors)@) == message_views(old(errors)@) + size_faults(
            policy@,
            *size,
        ),
{
    if !policy.is_vbr {
        if let Some(cbr_size) = policy.cbr_frame_size {
            proof {
                let a = policy.frame_count;
                assert(0 <= a * cbr_size <= 0xFFFF_FFFF_FFFF_FFFF * 0xFFFF_FFFF_FFFF_FFFF)
                    by (nonlinear_arith)
                    requires
                        0 <= a <= 0xFFFF_FFFF_FFFF_FFFF,
                        0 <= cbr_size <= 0xFFFF_FFFF_FFFF_FFFF,
                ;
            }
            let expected: u128 = policy.frame_count as u128 * cbr_size as u128;
            match size {
                Ok(n) => {
                    if *n as u128 != expected {
                        let mut s: String = label(policy.track_id);
                        s.append("CBR size mismatch: file=");
                        push_decimal(&mut s, *n as u128);
                        s.append(" expected=");
                        push_decimal(&mut s, expected);
                        note(errors, s);
                    }
                },
                Err(e) => {
                    let mut s: String = label(policy.track_id);
                    s.append("stat error: ");
                    s.append(e.as_str());
                    note(errors, s);
                },
            }
        }
    }
    assert(message_views(errors@) =~= message_views(old(errors)@) + size_faults(policy@, *size));
}

fn check_vfr(policy: &TrackPolicy, vfr: &VfrState, errors: &mut Vec<String>)
    ensures
        message_views(final(errors)@) == message_views(old(errors)@) + vfr_faults(policy@, *vfr),
{
    if let Some(expected) = &policy.vfr_file_hash {
        match vfr {
            VfrState::Missing(e) => {
                let mut s: String = label(policy.track_id);
                s.append("VFR not found: ");
                s.append(e.as_str());
                note(errors, s);
            },
            VfrState::Present { path, hash } => match hash {
                Err(e) => {
                    let mut s: String = label(policy.track_id);
                    s.append("VFR SHA-256 error: ");
                    s.append(e.as_str());
                    note(errors, s);
                },
                Ok(h) => {
                    if !bytes_equal(h, expected) {
                        let mut s: String = label(policy.track_id);
                        s.append("VFR hash mismatch (");
                        s.append(path.as_str());
                        s.append(")");
                        note(errors, s);
                    }
                },
            },
        }
    }
    assert(message_views(errors@) =~= message_views(old(errors)@) + vfr_faults(policy@, *vfr));
}

/// Holds what was found of the files of a track against its policy.
pub fn check_track(policy: &TrackPolicy, state: &TrackState, errors: &mut Vec<String>)
    ensures
        message_views(final(errors)@) == message_views(old(errors)@) + track_faults(
            policy@,
            *state,
        ),
{
    match &state.raw {
        RawState::Missing(e) => {
            let mut s: String = label(policy.track_id);
            s.append(e.as_str());
            note(errors, s);
        },
        RawState::Present { path, hash, size } => {
            check_raw_hash(policy, path, hash, errors);
            check_size(policy, size, errors);
            check_vfr(policy, &state.vfr, errors);
        },
    }
    assert(message_views(errors@) =~= message_views(old(errors)@) + track_faults(policy@, *state));
}

/// Holds what was found of the files of all tracks against their policies.
pub fn check_tracks(policies: &Vec<TrackPolicy>, states: &Vec<TrackState>) -> (r: Vec<String>)
    requires
        policies@.len() == states@.len(),
    ensures
        message_views(r@) == faults_upto(policy_models(policies@), states@, policies@.len()),
{
    let ghost models = policy_models(policies@);
    let mut errors: Vec<String> = Vec::new();
    let mut i: usize = 0;
    assert(message_views(errors@) =~= Seq::<Seq<char>>::empty());
    while i < policies.len()
        invariant
            models == policy_models(policies@),
            policies@.len() == states@.len(),
            i <= policies@.len(),
            message_views(errors@) == faults_upto(models, states@, i as nat),
        decreases policies@.len() - i,
    {
        check_track(&policies[i], &states[i], &mut errors);
        assert(models[i as int] == policies@[i as int]@);
        i = i + 1;
    }
    errors
}

} // verus!
