//! The tracker, measured with floating-point cosine similarity.

use loop_guard::terms::{Rival, StepQuery, TermWeight};
use loop_guard::tracker::{LoopDetected, Measurement, StepEvent, StepTracker};
use loop_guard::words::tokenize;

/// The cosine similarity of the newest step to an earlier one, with each word
/// weighted by how few steps have it.
fn cosine(query: &StepQuery, rival: &Rival) -> f64 {
    let documents = query.documents as f64;
    let idf = |d: usize| (1.0 + documents / d as f64).ln();
    let norm = |count: usize, d: usize| (count as f64 * idf(d)).powi(2);
    let na: f64 = query.terms.iter().map(|t| norm(t.count, t.documents)).sum();
    let nb: f64 = rival.terms.iter().map(|t| norm(t.count, t.documents)).sum();
    let dot: f64 = rival
        .shared
        .iter()
        .map(|t| t.new_count as f64 * t.old_count as f64 * idf(t.documents).powi(2))
        .sum();
    if na <= 0.0 || nb <= 0.0 {
        0.0
    } else {
        dot / (na.sqrt() * nb.sqrt())
    }
}

/// A number whose order among its like is that of the similarity.
fn rank(similarity: f64) -> u64 {
    if similarity > 0.0 {
        similarity.to_bits()
    } else {
        0
    }
}

fn measure(query: &StepQuery) -> Measurement {
    let found: Vec<f64> = query.rivals.iter().map(|r| cosine(query, r)).collect();
    Measurement {
        similarities: found.iter().map(|s| rank(*s)).collect(),
        rendered: found.iter().map(|s| format!("{:.6}", s)).collect(),
        elapsed: "0.0".to_string(),
    }
}

fn feed(tracker: &mut StepTracker, delta: &str) -> Vec<(StepEvent, Option<LoopDetected>)> {
    let queries = tracker.feed(delta);
    queries.iter().map(|q| tracker.judge(q.step_idx, &measure(q))).collect()
}

fn tracker(threshold: f64, min_step_words: usize, request_id: &str) -> StepTracker {
    StepTracker::new(rank(threshold), min_step_words, request_id.to_string())
}

// Steps transcribed from a real, reproduced session that was stuck in a loop.
const REAL_LOOP_STEPS: &[&str] = &[
    r#"Actually, wait - I just realized something. Looking at line 410:
        errors.AppendFormat("File '%s' exceeds 100MB limit.", fileName)
        This is using StringBuilder.AppendFormat with a format string that
        contains %s. But StringBuilder.AppendFormat uses {0}, {1}, etc., not
        %s. So this is a bug - the format string should use {0} instead of
        %s. But the error is reported at line 189, not 410. Let me check if
        there's some compilation behavior where the error gets reported at
        the wrong line."#,
    r#"Actually, let me look at the sprintf template more carefully. The
        template from line 189-289 contains %s placeholders. Let me count
        them: Line 84 relative %s successHtml, Line 85 relative %s
        errorHtml, Line 86 relative upload%s queryString, Line 94 relative
        value quote %s quote safePath. That's 4 %s placeholders and 4
        arguments successHtml errorHtml queryString safePath. This looks
        correct."#,
    r#"But wait! Looking at line 86 again: form method post action
        upload%s enctype multipart form data. The upload%s is meant to
        insert the query string path. But actually looking at the sprintf
        arguments on line 289 relative line 101 successHtml errorHtml
        queryString safePath."#,
    r#"I can see the template clearly now. The issue is on line 71:
        color hash 0366 semicolon d6 - this should be color hash 0366d6.
        But that's a CSS issue, not a format string issue."#,
    r#"Wait, I need to look more carefully. The error says Bad format
        specifier semicolon at line 189. Let me check if there are any
        percent characters followed by special characters in the template.
        Looking at the lines: Line 35 width 100 percent semicolon this has
        percent but it's not preceded by percent. Line 71 color hash 0366
        semicolon d6 semicolon CSS issue. Actually, I don't see any percent
        quote in the template. The percent s placeholders are on lines 84,
        85, 86, and 94 all followed by quote which is valid the percent s
        will be replaced with strings."#,
    r#"Wait! Let me look at line 86 more carefully: form method post
        action upload percent s enctype multipart form data. The upload
        percent s has percent s which is a format specifier. But this is
        inside the triple quoted string that's being passed to sprintf. The
        issue is that the percent s here is meant to be part of the HTML
        replaced with the query string path but it's being interpreted as a
        sprintf format specifier. Actually, this should work fine since
        sprintf will replace percent s with queryString."#,
    r#"Oh wait! I just realized - looking at the CSS on line 71: color
        hash 0366 semicolon d6 semicolon - there's a semicolon inside the
        color value. This is invalid CSS, but shouldn't cause a format
        string error. Let me look at the actual error message again Bad
        format specifier semicolon this means F sharp found a percent
        followed by quote somewhere. Let me search for this pattern more
        carefully."#,
    r#"I see the format strings. Let me look at the createUploadHtml
        function more carefully. The sprintf template is a triple quoted
        string from line 189 to 289. Let me check for any issues with the
        percent characters. Looking at line 274: form method post action
        upload percent s enctype multipart form data. This has percent s
        which should be a format specifier. But wait this is inside the
        HTML template string not a separate sprintf call."#,
    r#"Wait, let me count the percent s in the template: Line 272
        percent s successHtml, Line 273 percent s errorHtml, Line 274
        upload percent s queryString, Line 282 percent s safePath. That's 4
        percent s placeholders and 4 arguments. But wait, line 274 has
        upload percent s where the percent s is meant to be replaced with
        the query string path. So this should work."#,
    r#"But wait! The error says Bad format specifier semicolon which
        means there's a malformed format specifier somewhere. Let me look
        more carefully at the template. Actually, I wonder if there's a
        hidden Unicode character. Let me check the raw bytes around line
        189."#,
    r#"The color code should be 0366d6 not 0366 semicolon d6. But this
        is CSS, not a format string issue unless there's some interaction."#,
    r#"Actually wait - let me look at line 189 column 17 more carefully.
        The error says Bad format specifier semicolon this means somewhere
        in the format string there's a percent followed by quote. Let me
        search for any percent followed by special characters in the HTML
        template."#,
    r#"Oh wait! I think I see it now. Looking at line 269: a href back
        link larr Back to catalog. The larr is an HTML entity, not a format
        specifier. That's fine. Hmm, let me look for any percent in the
        template. I don't see any obvious issues. Maybe the issue is with a
        Unicode character that looks like a regular character but isn't? Or
        maybe there's an encoding issue? Let me check the file encoding."#,
];

#[test]
fn fires_on_real_reproduced_loop_early() {
    let mut tracker = tracker(0.35, 15, "test-loop");
    let mut fired_at: Option<usize> = None;
    for (i, step) in REAL_LOOP_STEPS.iter().enumerate() {
        let chunk = format!("{step} Wait, ");
        for (_, hit) in feed(&mut tracker, &chunk) {
            if hit.is_some() && fired_at.is_none() {
                fired_at = Some(i);
            }
        }
    }
    assert!(fired_at.is_some(), "must fire at all on a real reproduced loop");
    assert!(
        fired_at.unwrap() <= 8,
        "must fire within the first 8 of 13 steps (detects it QUICK, not just eventually), fired at {:?}",
        fired_at
    );
}

#[test]
fn never_fires_on_genuinely_distinct_steps() {
    let mut tracker = tracker(0.35, 15, "test-clean");
    let distinct_steps = [
        "Wait, let me check the imports first, nothing unusual there.",
        "Actually, let me check the routing table next, that looks fine too, all endpoints registered correctly.",
        "Hold on, let me check the database connection string, that's using the right environment variable.",
        "Actually, let me check the middleware order, authentication runs before authorization as expected.",
        "Wait, let me check the serialization settings, camelCase policy is applied consistently.",
        "Hmm, let me check the logging configuration, structured JSON output is enabled correctly.",
    ];
    let mut fired = false;
    for step in distinct_steps {
        let chunk = format!("{step} Wait, ");
        for (_, hit) in feed(&mut tracker, &chunk) {
            if hit.is_some() {
                fired = true;
            }
        }
    }
    assert!(!fired, "must never fire on genuinely non-repeating steps");
}

#[test]
fn one_delta_may_finish_several_steps() {
    let mut tracker = tracker(0.35, 2, "r");
    let events = feed(&mut tracker, "alpha beta gamma. Wait, delta epsilon zeta. Hmm, eta theta");
    let indices: Vec<usize> = events.iter().map(|(e, _)| e.step_idx).collect();
    assert_eq!(indices, vec![0, 1]);
}

#[test]
fn a_restated_step_is_reported_with_its_reason() {
    let mut tracker = tracker(0.35, 2, "req-7");
    let events = feed(&mut tracker, "alpha beta gamma. Wait, alpha beta gamma. Wait, ");
    assert_eq!(events.len(), 2);
    assert_eq!(events[0].0.best_match_idx, None);
    assert_eq!(events[0].0.similarity, 0);
    assert!(events[0].1.is_none());
    assert_eq!(events[1].0.best_match_idx, Some(0));
    assert_eq!(
        events[1].1.as_ref().unwrap().reason,
        "request=req-7 step 1 repeats step 0 (similarity 1.000000, elapsed=0.0s): \"alpha beta gamma. \""
    );
}

#[test]
fn a_step_without_common_words_matches_nothing() {
    let mut tracker = tracker(0.0, 2, "r");
    let events = feed(&mut tracker, "alpha beta gamma. Wait, delta epsilon zeta. Wait, ");
    assert_eq!(events.len(), 2);
    assert_eq!(events[1].0.best_match_idx, None);
    assert!(events[1].1.is_none());
}

#[test]
fn markers_in_mid_sentence_do_not_split() {
    let mut tracker = tracker(0.35, 2, "r");
    assert!(tracker.feed("alpha beta and wait for gamma delta, actually epsilon").is_empty());
    assert_eq!(tracker.feed("\nBut oh wait").len(), 1);
}

#[test]
fn markers_need_a_word_boundary_and_any_case_counts() {
    let mut tracker = tracker(0.35, 2, "r");
    assert!(tracker.feed("alpha beta gamma. Waiting around").is_empty());
    assert_eq!(tracker.feed(" longer. HOLD ON").len(), 1);
}

#[test]
fn short_segments_gather_until_they_make_a_step() {
    let mut tracker = tracker(0.35, 3, "r");
    assert!(tracker.feed("alpha. Wait, beta. Wait, ").is_empty());
    let queries = tracker.feed("gamma. Hmm, ");
    assert_eq!(queries.len(), 1);
    assert_eq!(queries[0].documents, 1);
    assert_eq!(queries[0].terms.len(), 3);
}

#[test]
fn a_marker_split_over_two_deltas_is_found() {
    let mut tracker = tracker(0.35, 2, "r");
    assert!(tracker.feed("alpha beta gamma. Wa").is_empty());
    assert_eq!(tracker.feed("it, there").len(), 1);
}

#[test]
fn queries_count_words_and_steps() {
    let mut tracker = tracker(0.35, 2, "r");
    let queries = tracker.feed("alpha alpha beta. Wait, beta gamma beta alpha. Wait, ");
    assert_eq!(queries.len(), 2);
    let query = &queries[1];
    assert_eq!((query.step_idx, query.documents), (1, 2));
    let terms: Vec<(usize, usize)> = query.terms.iter().map(|t| (t.count, t.documents)).collect();
    assert_eq!(terms, vec![(2, 2), (1, 1), (1, 2)]);
    let rival = &query.rivals[0];
    let old: Vec<(usize, usize)> = rival.terms.iter().map(|t| (t.count, t.documents)).collect();
    assert_eq!(old, vec![(2, 2), (1, 2)]);
    let shared: Vec<(usize, usize, usize)> =
        rival.shared.iter().map(|t| (t.new_count, t.old_count, t.documents)).collect();
    assert_eq!(shared, vec![(2, 1, 2), (1, 2, 2)]);
}

#[test]
fn the_first_of_equally_similar_steps_is_named() {
    let tracker = {
        let mut t = StepTracker::new(5, 1, "r".to_string());
        t.feed("alpha beta. Wait, gamma delta. Wait, eta theta. Wait, ");
        t
    };
    let measured = Measurement {
        similarities: vec![7, 7],
        rendered: vec!["a".to_string(), "b".to_string()],
        elapsed: "1.5".to_string(),
    };
    let (event, hit) = tracker.judge(2, &measured);
    assert_eq!((event.step_idx, event.best_match_idx, event.similarity), (2, Some(0), 7));
    assert_eq!(
        hit.unwrap().reason,
        "request=r step 2 repeats step 0 (similarity a, elapsed=1.5s): \"alpha beta. \""
    );
}

#[test]
fn the_threshold_itself_counts_as_a_repetition() {
    let mut tracker = StepTracker::new(7, 1, "r".to_string());
    tracker.feed("alpha beta. Wait, gamma delta. Wait, ");
    let measured = |similarity: u64| Measurement {
        similarities: vec![similarity],
        rendered: vec!["x".to_string()],
        elapsed: "0.0".to_string(),
    };
    assert!(tracker.judge(1, &measured(6)).1.is_none());
    assert!(tracker.judge(1, &measured(7)).1.is_some());
}

#[test]
fn a_long_step_is_quoted_by_its_first_characters() {
    let mut tracker = StepTracker::new(1, 1, "r".to_string());
    let long = "\u{e9}".repeat(200);
    tracker.feed(&format!("{long}. Wait, gamma delta. Wait, "));
    let measured = Measurement {
        similarities: vec![3],
        rendered: vec!["x".to_string()],
        elapsed: "0.0".to_string(),
    };
    let reason = tracker.judge(1, &measured).1.unwrap().reason;
    assert!(reason.ends_with(&format!("\"{}\"", "\u{e9}".repeat(160))));
    assert!(!reason.ends_with(&format!("\"{}\"", "\u{e9}".repeat(161))));
}

#[test]
fn flushing_closes_off_the_rest() {
    let mut tracker = StepTracker::new(1, 2, "r".to_string());
    tracker.feed("alpha beta gamma. Wait, delta epsilon");
    let query = tracker.flush().unwrap();
    assert_eq!((query.step_idx, query.documents), (1, 2));
    assert!(tracker.flush().is_none());
    tracker.feed(" zeta");
    assert!(tracker.flush().is_none());
    tracker.feed(" eta theta");
    assert_eq!(tracker.flush().unwrap().step_idx, 2);
}

#[test]
fn steps_may_be_cut_inside_multibyte_text() {
    let mut tracker = StepTracker::new(1, 2, "r".to_string());
    let queries = tracker.feed("\u{fc}ber na\u{ef}ve \u{65e5}\u{672c}\n Wait, \u{fc}ber na\u{ef}ve\n Hmm");
    assert_eq!(queries.len(), 2);
    assert_eq!(queries[1].rivals[0].shared.len(), 2);
}

#[test]
fn offsets_are_cut_at_in_order() {
    let mut tracker = StepTracker::new(1, 2, "r".to_string());
    tracker.feed("alpha beta gamma delta epsilon zeta");
    let queries = tracker.split_at_markers(&vec![None, Some(3), Some(11), Some(17), Some(23)]);
    let sizes: Vec<usize> = queries.iter().map(|q| q.terms.len()).collect();
    assert_eq!(sizes, vec![2, 2]);
    assert_eq!(tracker.flush().unwrap().terms.len(), 2);
}

#[test]
fn finished_steps_stay_as_they_are() {
    let mut tracker = StepTracker::new(1, 2, "r".to_string());
    tracker.feed("alpha beta. Wait, gamma delta. Wait, ");
    let measured = Measurement {
        similarities: vec![3],
        rendered: vec!["x".to_string()],
        elapsed: "0.0".to_string(),
    };
    let before = tracker.judge(1, &measured).1.unwrap().reason;
    tracker.feed("epsilon zeta. Wait, eta theta. Hmm, iota");
    let after = tracker.judge(1, &measured).1.unwrap().reason;
    assert_eq!(before, after);
}

#[test]
fn a_step_restated_in_another_order_is_found() {
    let mut tracker = tracker(0.99, 2, "r");
    let events = feed(
        &mut tracker,
        "alpha beta beta gamma. Wait, delta epsilon zeta. Wait, beta gamma alpha, beta. Wait, ",
    );
    assert_eq!(events.len(), 3);
    assert_eq!(events[2].0.best_match_idx, Some(0));
    assert!(events[2].1.is_some());
}

#[test]
fn finished_steps_can_be_read() {
    let mut tracker = StepTracker::new(1, 2, "r".to_string());
    tracker.feed("alpha beta. Wait, gamma delta. Hmm, ");
    assert_eq!(tracker.step_text(0), "alpha beta. ");
    assert_eq!(tracker.step_text(1), "Wait, gamma delta. ");
}

#[test]
fn steps_of_a_whole_trace_are_long_numbered_and_complete() {
    let mut tracker = StepTracker::new(1, 3, "r".to_string());
    let deltas = ["alpha. Wait, be", "ta gamma. Wait, delta", ". Hmm, epsilon zeta eta. Wait", ", theta"];
    let mut numbers = Vec::new();
    for delta in deltas {
        numbers.extend(tracker.feed(delta).iter().map(|q| q.step_idx));
    }
    assert_eq!(numbers, vec![0, 1]);
    let mut text = String::new();
    for i in 0..numbers.len() {
        let step = tracker.step_text(i);
        assert!(tokenize(&step).len() >= 3);
        text.push_str(&step);
    }
    assert!(deltas.concat().starts_with(&text));
    assert_eq!(&deltas.concat()[text.len()..], "Wait, theta");
    assert!(tracker.flush().is_none());
}

#[test]
fn any_weighting_finds_restatements_and_novelty() {
    let mut tracker = StepTracker::new(1, 2, "r".to_string());
    let queries = tracker.feed("alpha beta beta. Wait, gamma delta. Wait, beta alpha beta. Wait, ");
    let query = &queries[2];
    for weigh in [|d: usize| d, |d: usize| d * d + 1, |_: usize| 7] {
        let length = |terms: &Vec<TermWeight>| -> usize {
            terms.iter().map(|t| (t.count * weigh(t.documents)).pow(2)).sum()
        };
        let dot = |i: usize| -> usize {
            query.rivals[i]
                .shared
                .iter()
                .map(|t| t.new_count * t.old_count * weigh(t.documents).pow(2))
                .sum()
        };
        assert!(length(&query.terms) > 0);
        assert_eq!(length(&query.rivals[0].terms), length(&query.terms));
        assert_eq!(dot(0), length(&query.terms));
        assert_eq!(dot(1), 0);
    }
}
