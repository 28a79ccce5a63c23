use cdn_pls::rewriter::find_broken_links;
use cdn_pls::rewriter::has_broken_link;

fn chars(s: &str) -> Vec<char> {
    s.chars().collect()
}

fn string_of(v: &[char]) -> String {
    v.iter().collect()
}

#[test]
fn rewrites_single_broken_link() {
    let text = chars(
        "check http://media.discordapp.net/attachments/123456789012345678/987654321098765432/img.png",
    );
    let found = find_broken_links(&text);
    assert_eq!(found.len(), 1);
    assert_eq!(
        string_of(&found[0].text),
        "http://media.discordapp.net/attachments/123456789012345678/987654321098765432/img.png"
    );
    assert_eq!(
        string_of(&found[0].fixed),
        "https://cdn.discordapp.com/attachments/123456789012345678/987654321098765432/img.png"
    );
    assert_eq!(found[0].start, 6);
}

#[test]
fn keeps_https_scheme() {
    let text = chars(
        "https://media.discordapp.net/attachments/123456789012345678/987654321098765432/a.gif",
    );
    let found = find_broken_links(&text);
    assert_eq!(found.len(), 1);
    assert_eq!(
        string_of(&found[0].fixed),
        "https://cdn.discordapp.com/attachments/123456789012345678/987654321098765432/a.gif"
    );
}

#[test]
fn two_occurrences_rewritten_independently() {
    let link = "http://media.discordapp.net/attachments/123456789012345678/987654321098765432/img.png";
    let text = chars(&format!("{} and {}", link, link));
    let found = find_broken_links(&text);
    assert_eq!(found.len(), 2);
    let fixed = "https://cdn.discordapp.com/attachments/123456789012345678/987654321098765432/img.png";
    assert_eq!(string_of(&found[0].fixed), fixed);
    assert_eq!(string_of(&found[1].fixed), fixed);
}

#[test]
fn two_distinct_occurrences_in_order() {
    let a = "http://media.discordapp.net/attachments/111111111111111111/222222222222222222/a.png";
    let b = "https://media.discordapp.net/attachments/3333333333333333333/4444444444444444444/b.jpg";
    let text = chars(&format!("first {}\nsecond {} done", a, b));
    let found = find_broken_links(&text);
    assert_eq!(found.len(), 2);
    assert_eq!(
        string_of(&found[0].fixed),
        "https://cdn.discordapp.com/attachments/111111111111111111/222222222222222222/a.png"
    );
    assert_eq!(
        string_of(&found[1].fixed),
        "https://cdn.discordapp.com/attachments/3333333333333333333/4444444444444444444/b.jpg"
    );
    assert!(found[0].start < found[1].start);
}

#[test]
fn no_match_yields_empty_result() {
    assert_eq!(find_broken_links(&chars("")).len(), 0);
    assert_eq!(find_broken_links(&chars("hello world")).len(), 0);
    assert_eq!(
        find_broken_links(&chars(
            "https://cdn.discordapp.com/attachments/123456789012345678/987654321098765432/x.png"
        ))
        .len(),
        0
    );
    assert!(!has_broken_link(&chars("no links here")));
}

#[test]
fn wrong_host_or_path_is_not_matched() {
    assert_eq!(
        find_broken_links(&chars(
            "http://media.discordapp.com/attachments/123456789012345678/987654321098765432/x"
        ))
        .len(),
        0
    );
    assert_eq!(
        find_broken_links(&chars(
            "http://media.discordapp.net/files/123456789012345678/987654321098765432/x"
        ))
        .len(),
        0
    );
    assert_eq!(find_broken_links(&chars("ftp://media.discordapp.net/attachments/123456789012345678/987654321098765432/x")).len(), 0);
}

#[test]
fn id_must_have_eighteen_or_nineteen_digits() {
    // 17 digits: too short.
    assert_eq!(
        find_broken_links(&chars(
            "http://media.discordapp.net/attachments/12345678901234567/987654321098765432/x.png"
        ))
        .len(),
        0
    );
    // 20 digits: too long.
    assert_eq!(
        find_broken_links(&chars(
            "http://media.discordapp.net/attachments/12345678901234567890/987654321098765432/x.png"
        ))
        .len(),
        0
    );
    // 19 digits: accepted.
    assert_eq!(
        find_broken_links(&chars(
            "http://media.discordapp.net/attachments/1234567890123456789/987654321098765432/x.png"
        ))
        .len(),
        1
    );
}

#[test]
fn match_stops_at_whitespace() {
    let text = chars(
        "http://media.discordapp.net/attachments/123456789012345678/987654321098765432/img.png tail",
    );
    let found = find_broken_links(&text);
    assert_eq!(found.len(), 1);
    assert_eq!(
        string_of(&found[0].text),
        "http://media.discordapp.net/attachments/123456789012345678/987654321098765432/img.png"
    );
}

#[test]
fn trailing_part_may_be_empty() {
    let text = chars("http://media.discordapp.net/attachments/123456789012345678/987654321098765432/");
    let found = find_broken_links(&text);
    assert_eq!(found.len(), 1);
    assert_eq!(
        string_of(&found[0].fixed),
        "https://cdn.discordapp.com/attachments/123456789012345678/987654321098765432/"
    );
}

#[test]
fn rewritten_output_has_no_further_matches() {
    let text = chars(
        "see http://media.discordapp.net/attachments/123456789012345678/987654321098765432/img.png",
    );
    let found = find_broken_links(&text);
    assert_eq!(found.len(), 1);
    let once = found[0].fixed.clone();
    assert_eq!(find_broken_links(&once).len(), 0);
    assert!(!has_broken_link(&once));
}

#[test]
fn host_is_replaced_only_once() {
    // The trailing part repeats the host name as plain text (no scheme, so it
    // is not itself a link): only the host right after the scheme changes.
    let text = chars(
        "http://media.discordapp.net/attachments/123456789012345678/987654321098765432/media.discordapp.net",
    );
    let found = find_broken_links(&text);
    assert_eq!(found.len(), 1);
    assert_eq!(
        string_of(&found[0].fixed),
        "https://cdn.discordapp.com/attachments/123456789012345678/987654321098765432/media.discordapp.net"
    );
}

#[test]
fn match_may_begin_inside_a_word() {
    // The scan is positional: a link glued to preceding text still matches,
    // starting at its scheme.
    let text = chars(
        "see:http://media.discordapp.net/attachments/123456789012345678/987654321098765432/x.png",
    );
    let found = find_broken_links(&text);
    assert_eq!(found.len(), 1);
    assert_eq!(found[0].start, 4);
}

#[test]
fn rewritten_https_output_has_no_further_matches() {
    let text = chars(
        "https://media.discordapp.net/attachments/123456789012345678/987654321098765432/img.png",
    );
    let found = find_broken_links(&text);
    assert_eq!(found.len(), 1);
    assert!(!has_broken_link(&found[0].fixed));
}
