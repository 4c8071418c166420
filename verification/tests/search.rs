use envy_rs::dictionary::Dictionary;
use envy_rs::glob::is_match;
use envy_rs::search::generate;
use envy_rs::search::plan_jobs;
use envy_rs::search::search;
use envy_rs::worker::Job;

#[test]
fn first_accepted_expression_isolates_the_identifier() {
    let mut env = Dictionary::new();
    assert!(env.insert("V1".to_string(), vec!["cat".to_string(), "bat".to_string()]));
    let job = Job { identifier: "cat".to_string(), substring: "V1".to_string() };
    let res = search(&job, &env).expect("a distinguishing pattern exists");
    // the accepted expression matches the identifier and nothing else
    assert!(is_match(&res.expression, "cat"));
    assert!(!is_match(&res.expression, "bat"));
    // enumeration order makes it the very first candidate
    assert_eq!(res.expression, "c*");
    assert_eq!(res.value, "V1");
    assert_eq!(res.job.identifier, "cat");
}

#[test]
fn search_exhausts_on_identical_identifiers() {
    // no pattern can tell two identical identifiers apart
    let mut env = Dictionary::new();
    assert!(env.insert("V1".to_string(), vec!["aaa".to_string(), "aaa".to_string()]));
    let job = Job { identifier: "aaa".to_string(), substring: "V1".to_string() };
    assert!(search(&job, &env).is_none());
}

#[test]
fn search_exhausts_when_identifier_spans_entries() {
    // the identifier occurs under two values: every expression matching it
    // matches both occurrences, so nothing resolves uniquely
    let mut env = Dictionary::new();
    assert!(env.insert("V1".to_string(), vec!["cat".to_string()]));
    assert!(env.insert("V2".to_string(), vec!["cat".to_string()]));
    let job = Job { identifier: "cat".to_string(), substring: "V1".to_string() };
    assert!(search(&job, &env).is_none());
}

#[test]
fn search_skips_ambiguous_candidates() {
    // the first candidate "a?" matches both identifiers and is rejected;
    // the next one, "*b", is the first that isolates "ab"
    let mut env = Dictionary::new();
    assert!(env.insert("V1".to_string(), vec!["ab".to_string(), "ax".to_string()]));
    let job = Job { identifier: "ab".to_string(), substring: "V1".to_string() };
    let res = search(&job, &env).expect("a distinguishing pattern exists");
    assert_eq!(res.expression, "*b");
    assert_eq!(res.value, "V1");
}

#[test]
fn search_empty_identifier_exhausts() {
    let mut env = Dictionary::new();
    assert!(env.insert("V1".to_string(), vec!["cat".to_string()]));
    let job = Job { identifier: "".to_string(), substring: "V1".to_string() };
    assert!(search(&job, &env).is_none());
}

#[test]
fn plan_jobs_keeps_values_sharing_a_span() {
    let mut env = Dictionary::new();
    assert!(env.insert("program".to_string(), vec!["cat".to_string(), "bat".to_string()]));
    assert!(env.insert("zz".to_string(), vec!["dog".to_string()]));
    let jobs = plan_jobs("xprogramx", &env);
    assert_eq!(jobs.len(), 2);
    assert_eq!(jobs[0].identifier, "cat");
    assert_eq!(jobs[0].substring, "program");
    assert_eq!(jobs[1].identifier, "bat");
    assert_eq!(jobs[1].substring, "program");
}

#[test]
fn plan_jobs_drops_short_spans() {
    let mut env = Dictionary::new();
    assert!(env.insert("ab".to_string(), vec!["cat".to_string()]));
    let jobs = plan_jobs("xabx", &env);
    assert_eq!(jobs.len(), 0);
}

#[test]
fn one_result_per_acceptable_job() {
    let mut env = Dictionary::new();
    assert!(env.insert("program".to_string(), vec!["cat".to_string(), "bat".to_string()]));
    let jobs = plan_jobs("xprogramx", &env);
    let lines = generate("xprogramx", &env, &jobs);
    // both jobs admit a distinguishing pattern: exactly one line each
    assert_eq!(lines.len(), 2);
}

#[test]
fn no_results_without_distinguishing_patterns() {
    let mut env = Dictionary::new();
    assert!(env.insert("program".to_string(), vec!["aaa".to_string(), "aaa".to_string()]));
    let jobs = plan_jobs("xprogramx", &env);
    assert_eq!(jobs.len(), 2);
    let lines = generate("xprogramx", &env, &jobs);
    assert_eq!(lines.len(), 0);
}

#[test]
fn generate_renders_the_payload_line() {
    let mut env = Dictionary::new();
    assert!(env.insert("program".to_string(), vec!["cat".to_string()]));
    let jobs = plan_jobs("xprogramx", &env);
    let lines = generate("xprogramx", &env, &jobs);
    assert_eq!(lines, vec!["\"x\"+(\"${env:c*}\"[0..6]-join'')+\"x\"".to_string()]);
}
