use gg18_tasks::wire::{decode_envelope, encode_envelope, encode_keygen_init, encode_sign_init};
use gg18_tasks::{GG18Group, GG18Sign, Group, ProtocolType, Task, TaskError, TaskStatus, TaskType};

fn ids() -> Vec<Vec<u8>> {
    vec![b"carol".to_vec(), b"alice".to_vec(), b"bob".to_vec()]
}

fn sorted_ids() -> Vec<Vec<u8>> {
    vec![b"alice".to_vec(), b"bob".to_vec(), b"carol".to_vec()]
}

/// What device `from` sends device `to` in round `round`.
fn payload(round: u32, from: usize, to: usize) -> Vec<u8> {
    format!("r{}:{}->{}", round, from, to).into_bytes()
}

/// The envelope device `from` submits in `round`: one entry per other device.
fn envelope(round: u32, from: usize, n: usize) -> Vec<u8> {
    let entries: Vec<Vec<u8>> = (0..n).filter(|&to| to != from).map(|to| payload(round, from, to)).collect();
    encode_envelope(&entries)
}

fn waiting(status: &TaskStatus) -> Vec<Vec<u8>> {
    match status {
        TaskStatus::Waiting(w) => w.clone(),
        _ => panic!("expected a waiting status"),
    }
}

fn run_round(task: &mut Task, round: u32, last: bool) -> Option<TaskStatus> {
    let roster = sorted_ids();
    let mut end = None;
    for (i, id) in roster.iter().enumerate() {
        assert!(task.get_work(id).is_some());
        let r = task.update(id, &envelope(round, i, roster.len())).unwrap();
        if i + 1 < roster.len() {
            assert_eq!(waiting(&r), roster[i + 1..].to_vec());
        } else if !last {
            assert_eq!(waiting(&r), roster);
        } else {
            end = Some(r);
        }
    }
    end
}

#[test]
fn keygen_happy_path() {
    let g = GG18Group::new("trio", &ids(), 2);
    let mut task = Task::GG18Group(g);
    let roster = sorted_ids();
    assert_eq!(task.get_work(&roster[0]).unwrap(), vec![0x10, 3, 0x18, 2]);
    assert_eq!(task.get_work(&roster[1]).unwrap(), vec![0x08, 1, 0x10, 3, 0x18, 2]);
    assert_eq!(task.get_work(&roster[2]).unwrap(), vec![0x08, 2, 0x10, 3, 0x18, 2]);
    for round in 1..6 {
        assert!(run_round(&mut task, round, false).is_none());
        // each device now receives what the others sent it, in roster order
        for k in 0..3usize {
            let work = task.get_work(&roster[k]).unwrap();
            let expected: Vec<Vec<u8>> = (0..3).filter(|&j| j != k).map(|j| payload(round, j, k)).collect();
            assert_eq!(decode_envelope(&work).unwrap(), expected);
        }
    }
    let end = run_round(&mut task, 6, true).unwrap();
    match end {
        TaskStatus::GroupEstablished(group) => {
            assert_eq!(group.devices(), &roster);
            assert_eq!(group.threshold(), 2);
            assert_eq!(group.name(), "trio");
            assert_eq!(group.identifier(), &payload(6, 0, 1));
            assert_eq!(group.protocol(), ProtocolType::GG18);
        }
        _ => panic!("expected an established group"),
    }
    match task.get_status() {
        (TaskType::GG18Group, TaskStatus::KeysGenerated(pk)) => assert_eq!(pk, payload(6, 0, 1)),
        _ => panic!("expected generated keys"),
    }
    assert!(task.get_work(&roster[0]).is_none());
    assert_eq!(task.update(&roster[0], &envelope(7, 0, 3)).unwrap_err(), TaskError::NotAwaited);
}

#[test]
fn stale_resubmission_is_refused() {
    let mut g = GG18Group::new("trio", &ids(), 2);
    let roster = sorted_ids();
    for (i, id) in roster.iter().enumerate() {
        g.update(id, &envelope(1, i, 3)).unwrap();
    }
    let r = g.update(&roster[1], &envelope(2, 1, 3)).unwrap();
    assert_eq!(waiting(&r), vec![roster[0].clone(), roster[2].clone()]);
    assert_eq!(g.update(&roster[1], &envelope(2, 1, 3)).unwrap_err(), TaskError::NotAwaited);
    assert!(g.get_work(&roster[1]).is_none());
    assert_eq!(waiting(&g.get_status().1), vec![roster[0].clone(), roster[2].clone()]);
}

#[test]
fn signing_happy_path() {
    let digest = vec![0xde, 0xad, 0xbe, 0xef];
    let group = Group::new(vec![7; 33], "trio".to_string(), ids(), 2, ProtocolType::GG18);
    let s = GG18Sign::new(group, digest.clone());
    let mut task = Task::GG18Sign(s);
    let roster = sorted_ids();
    let init_0 = vec![0x0a, 3, 0, 1, 2, 0x1a, 4, 0xde, 0xad, 0xbe, 0xef];
    let init_2 = vec![0x0a, 3, 0, 1, 2, 0x10, 2, 0x1a, 4, 0xde, 0xad, 0xbe, 0xef];
    assert_eq!(task.get_work(&roster[0]).unwrap(), init_0);
    assert_eq!(task.get_work(&roster[2]).unwrap(), init_2);
    assert_eq!(task.get_work(&roster[1]).unwrap(), encode_sign_init(&vec![0, 1, 2], 1, &digest));
    for round in 1..10 {
        assert!(run_round(&mut task, round, false).is_none());
    }
    match run_round(&mut task, 10, true).unwrap() {
        TaskStatus::Signed(sig) => assert_eq!(sig, payload(10, 0, 1)),
        _ => panic!("expected a signature"),
    }
    match task.get_status() {
        (TaskType::Sign, TaskStatus::Signed(sig)) => assert_eq!(sig, payload(10, 0, 1)),
        _ => panic!("expected a signature status"),
    }
}

#[test]
fn unparsable_payload_changes_nothing() {
    let mut g = GG18Group::new("trio", &ids(), 2);
    let roster = sorted_ids();
    assert_eq!(g.update(&roster[0], &[0xff]).unwrap_err(), TaskError::DecodeError);
    assert_eq!(g.update(&roster[0], &[0x12, 0x01, 0x00]).unwrap_err(), TaskError::DecodeError);
    assert_eq!(g.update(&roster[0], &[0x0a, 0x05, 0x00]).unwrap_err(), TaskError::DecodeError);
    assert_eq!(waiting(&g.get_status().1), roster);
    assert_eq!(g.get_work(&roster[0]).unwrap(), vec![0x10, 3, 0x18, 2]);
}

#[test]
fn wrong_number_of_entries_is_refused() {
    let mut g = GG18Group::new("trio", &ids(), 2);
    let roster = sorted_ids();
    let one = encode_envelope(&vec![b"x".to_vec()]);
    let three = encode_envelope(&vec![b"x".to_vec(), b"y".to_vec(), b"z".to_vec()]);
    assert_eq!(g.update(&roster[0], &one).unwrap_err(), TaskError::DecodeError);
    assert_eq!(g.update(&roster[0], &three).unwrap_err(), TaskError::DecodeError);
    assert_eq!(waiting(&g.get_status().1), roster);
}

#[test]
fn unknown_device_is_not_awaited() {
    let mut g = GG18Group::new("trio", &ids(), 2);
    assert_eq!(g.update(b"mallory", &envelope(1, 0, 3)).unwrap_err(), TaskError::NotAwaited);
    assert!(g.get_work(b"mallory").is_none());
    assert_eq!(waiting(&g.get_status().1), sorted_ids());
}

#[test]
fn membership_holds_for_the_whole_ceremony() {
    let mut g = GG18Group::new("trio", &ids(), 2);
    let roster = sorted_ids();
    for id in ids() {
        assert!(g.has_device(&id));
    }
    assert!(!g.has_device(b"mallory"));
    assert!(!g.has_device(b""));
    for (i, id) in roster.iter().enumerate() {
        g.update(id, &envelope(1, i, 3)).unwrap();
    }
    for id in ids() {
        assert!(g.has_device(&id));
    }
    assert!(!g.has_device(b"mallory"));
}

#[test]
fn waiting_shrinks_by_one_per_submission() {
    let mut g = GG18Group::new("trio", &ids(), 2);
    let roster = sorted_ids();
    assert_eq!(g.waiting_for().len(), 3);
    g.update(&roster[2], &envelope(1, 2, 3)).unwrap();
    assert_eq!(g.waiting_for(), vec![roster[0].clone(), roster[1].clone()]);
    g.update(&roster[0], &envelope(1, 0, 3)).unwrap();
    assert_eq!(g.waiting_for(), vec![roster[1].clone()]);
    let r = g.update(&roster[1], &envelope(1, 1, 3)).unwrap();
    assert_eq!(waiting(&r), roster);
    assert_eq!(g.waiting_for().len(), 3);
}

#[test]
fn routed_payload_leaves_out_own_contribution() {
    let mut g = GG18Group::new("trio", &ids(), 2);
    let roster = sorted_ids();
    for (i, id) in roster.iter().enumerate() {
        g.update(id, &envelope(1, i, 3)).unwrap();
    }
    let work = decode_envelope(&g.get_work(&roster[1]).unwrap()).unwrap();
    assert_eq!(work, vec![payload(1, 0, 1), payload(1, 2, 1)]);
    for entry in work {
        assert!(!entry.starts_with(b"r1:1->"));
    }
}

#[test]
fn threshold_zero_and_full_roster() {
    let g = GG18Group::new("zero", &ids(), 0);
    assert_eq!(g.get_work(b"alice").unwrap(), vec![0x10, 3]);
    let g = GG18Group::new("full", &ids(), 3);
    assert_eq!(g.get_work(b"carol").unwrap(), vec![0x08, 2, 0x10, 3, 0x18, 3]);
}

#[test]
fn empty_roster_awaits_nobody() {
    let g = GG18Group::new("none", &[], 0);
    assert!(g.waiting_for().is_empty());
    assert!(!g.has_device(b"alice"));
}

#[test]
fn keygen_init_encoding() {
    assert_eq!(encode_keygen_init(0, 0, 0), Vec::<u8>::new());
    assert_eq!(encode_keygen_init(300, 1, 0), vec![0x08, 0xac, 0x02, 0x10, 1]);
}

#[test]
fn envelope_long_entry_round_trip() {
    let long = vec![5u8; 200];
    let bytes = encode_envelope(&vec![long.clone(), Vec::new()]);
    assert_eq!(&bytes[..3], &[0x0a, 0xc8, 0x01]);
    assert_eq!(bytes.len(), 3 + 200 + 2);
    assert_eq!(decode_envelope(&bytes).unwrap(), vec![long, Vec::new()]);
    assert_eq!(decode_envelope(&[]).unwrap(), Vec::<Vec<u8>>::new());
}

#[test]
fn envelope_accepts_long_form_varints() {
    // a length written in two bytes where one would do
    assert_eq!(decode_envelope(&[0x0a, 0x81, 0x00, 7]).unwrap(), vec![vec![7]]);
    // a varint that runs past the end of the input
    assert!(decode_envelope(&[0x0a, 0x81]).is_none());
    // a length beyond the input
    assert!(decode_envelope(&[0x0a, 0x02, 7]).is_none());
}
