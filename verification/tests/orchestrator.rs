use srt_translator::captions::segments;
use srt_translator::translate::{
    requests, translated_srt, translation_requests, Completion, Orchestrator, Progress,
    TranslationRequest,
};
use srt_translator::{Srt, TranslateError};

const THREE: &str = "1\n00:01 --> 00:02\nalpha\n\n2\n00:03 --> 00:04\nbeta\ngamma\n\n3\n00:05 --> 00:06\ndelta";

fn upper(request: &TranslationRequest) -> Result<String, String> {
    Ok(request.text.to_uppercase())
}

fn answers(asked: &[TranslationRequest], order: &[usize]) -> Vec<Completion> {
    order.iter().map(|&index| Completion { index, outcome: upper(&asked[index]) }).collect()
}

fn request(text: &str, source: &str, target: &str) -> TranslationRequest {
    TranslationRequest {
        text: text.to_owned(),
        source_language: source.to_owned(),
        target_language: target.to_owned(),
    }
}

#[test]
fn one_request_for_each_segment() {
    let found = segments(THREE);
    assert_eq!(
        requests(&found, "en", "fr"),
        vec![
            request("alpha", "en", "fr"),
            request("beta\ngamma", "en", "fr"),
            request("delta", "en", "fr"),
        ]
    );
    assert_eq!(requests(&vec![], "en", "fr"), vec![]);
}

#[test]
fn requests_for_captions_come_from_their_language() {
    let srt = Srt { language: "de".to_owned(), content: THREE.to_owned() };
    assert_eq!(
        translation_requests(&srt, "es"),
        vec![
            request("alpha", "de", "es"),
            request("beta\ngamma", "de", "es"),
            request("delta", "de", "es"),
        ]
    );
}

#[test]
fn every_order_of_arrival_gives_the_order_of_the_segments() {
    let asked = requests(&segments(THREE), "en", "fr");
    let expected = vec!["ALPHA".to_owned(), "BETA\nGAMMA".to_owned(), "DELTA".to_owned()];
    for order in [[0, 1, 2], [0, 2, 1], [1, 0, 2], [1, 2, 0], [2, 0, 1], [2, 1, 0]] {
        let state = Orchestrator::new(asked.len()).record_all(answers(&asked, &order));
        assert_eq!(state.progress(), Progress::Complete);
        assert_eq!(state.finish(), Some(Ok(expected.clone())), "{:?}", order);
    }
}

#[test]
fn many_segments_in_scrambled_order() {
    let count = 257;
    let mut order: Vec<usize> = (0..count).collect();
    let mut seed: usize = 12345;
    for i in (1..count).rev() {
        seed = (seed * 1103515245 + 12345) % 2147483648;
        order.swap(i, seed % (i + 1));
    }
    let mut state = Orchestrator::new(count);
    for (n, &index) in order.iter().enumerate() {
        assert_eq!(state.progress(), Progress::Pending);
        assert_eq!(state.len(), count);
        state = state.record(Completion { index, outcome: Ok(format!("body {}", index)) });
        assert_eq!(n + 1 == count, state.progress() == Progress::Complete);
    }
    let expected: Vec<String> = (0..count).map(|i| format!("body {}", i)).collect();
    assert_eq!(state.finish(), Some(Ok(expected)));
}

#[test]
fn nothing_is_handed_out_while_answers_are_awaited() {
    let asked = requests(&segments(THREE), "en", "fr");
    let state = Orchestrator::new(3).record_all(answers(&asked, &[2, 0]));
    assert_eq!(state.progress(), Progress::Pending);
    assert_eq!(state.finish(), None);
    assert_eq!(Orchestrator::new(1).finish(), None);
}

#[test]
fn no_segments_are_complete_at_once() {
    let state = Orchestrator::new(0);
    assert_eq!(state.progress(), Progress::Complete);
    assert_eq!(state.finish(), Some(Ok(vec![])));
}

#[test]
fn one_failure_fails_the_whole() {
    let asked = requests(&segments(THREE), "en", "fr");
    for failing in 0..3 {
        for order in [[0, 1, 2], [0, 2, 1], [1, 0, 2], [1, 2, 0], [2, 0, 1], [2, 1, 0]] {
            let mut arrived = answers(&asked, &order);
            for completion in arrived.iter_mut() {
                if completion.index == failing {
                    completion.outcome = Err("no answer".to_owned());
                }
            }
            let state = Orchestrator::new(3).record_all(arrived);
            assert_eq!(state.progress(), Progress::Failed);
            assert_eq!(
                state.finish(),
                Some(Err(TranslateError::TranslationFailure {
                    index: failing,
                    message: "no answer".to_owned()
                }))
            );
        }
    }
}

#[test]
fn the_first_failure_seen_is_kept() {
    let arrived = vec![
        Completion { index: 2, outcome: Ok("c".to_owned()) },
        Completion { index: 1, outcome: Err("first".to_owned()) },
        Completion { index: 0, outcome: Err("second".to_owned()) },
    ];
    assert_eq!(
        Orchestrator::new(3).record_all(arrived).finish(),
        Some(Err(TranslateError::TranslationFailure { index: 1, message: "first".to_owned() }))
    );
}

#[test]
fn answers_that_do_not_belong_change_nothing() {
    let state = Orchestrator::new(2)
        .record(Completion { index: 2, outcome: Ok("beyond".to_owned()) })
        .record(Completion { index: 7, outcome: Err("beyond".to_owned()) })
        .record(Completion { index: 1, outcome: Ok("one".to_owned()) })
        .record(Completion { index: 1, outcome: Ok("again".to_owned()) })
        .record(Completion { index: 1, outcome: Err("again".to_owned()) });
    assert_eq!(state.progress(), Progress::Pending);
    let state = state.record(Completion { index: 0, outcome: Ok("zero".to_owned()) });
    assert_eq!(state.progress(), Progress::Complete);
    let state = state.record(Completion { index: 0, outcome: Err("late".to_owned()) });
    assert_eq!(state.finish(), Some(Ok(vec!["zero".to_owned(), "one".to_owned()])));
}

#[test]
fn translated_captions_keep_headers_and_order() {
    let srt = Srt { language: "en".to_owned(), content: THREE.to_owned() };
    let asked = translation_requests(&srt, "fr");
    let bodies = Orchestrator::new(asked.len())
        .record_all(answers(&asked, &[1, 2, 0]))
        .finish()
        .unwrap()
        .unwrap();
    assert_eq!(
        translated_srt(&srt, &bodies),
        Ok("1\n00:01 --> 00:02\nALPHA\n\n2\n00:03 --> 00:04\nBETA\nGAMMA\n\n3\n00:05 --> 00:06\nDELTA"
            .to_owned())
    );
}

#[test]
fn translated_captions_need_a_body_for_each_segment() {
    let srt = Srt { language: "en".to_owned(), content: THREE.to_owned() };
    assert_eq!(
        translated_srt(&srt, &vec!["a".to_owned()]),
        Err(TranslateError::ReassemblyLengthMismatch { segments: 3, bodies: 1 })
    );
    let empty = Srt { language: "en".to_owned(), content: String::new() };
    assert_eq!(translated_srt(&empty, &vec![]), Ok(String::new()));
}
