use envy_rs::payload;
use envy_rs::worker::Job;
use envy_rs::worker::Result;

#[test]
fn format_embeds_expression_when_substring_is_identifier() {
    let res = Result {
        value: "cat".to_string(),
        expression: "c?t".to_string(),
        job: Job { identifier: "cat".to_string(), substring: "cat".to_string() },
    };
    assert_eq!(res.format("xcatxcatx"), "x${env:c?t}x${env:c?t}x");
}

#[test]
fn format_slices_partial_values() {
    let res = Result {
        value: "0123456789program".to_string(),
        expression: "p*".to_string(),
        job: Job { identifier: "x".to_string(), substring: "program".to_string() },
    };
    assert_eq!(res.format("aprogramb"), "\"a\"+(\"${env:p*}\"[10..16]-join'')+\"b\"");
}

#[test]
fn format_handles_leading_and_trailing_cuts() {
    let res = Result {
        value: "program".to_string(),
        expression: "p*".to_string(),
        job: Job { identifier: "x".to_string(), substring: "program".to_string() },
    };
    assert_eq!(res.format("program"), "(\"${env:p*}\"[0..6]-join'')");
    assert_eq!(res.format("programx"), "(\"${env:p*}\"[0..6]-join'')+\"x\"");
    assert_eq!(res.format("xprogram"), "\"x\"+(\"${env:p*}\"[0..6]-join'')");
}

#[test]
fn payload_format_renders_like_the_result() {
    let res = Result {
        value: "program".to_string(),
        expression: "p?o*".to_string(),
        job: Job { identifier: "x".to_string(), substring: "program".to_string() },
    };
    assert_eq!(payload::format(res, "aprogramb"), "\"a\"+(\"${env:p?o*}\"[0..6]-join'')+\"b\"");
}
