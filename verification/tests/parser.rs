use aries::gemtext::{response_parses, Heading, LineType, Link, Parser};

fn parse(text: &str) -> Vec<LineType> {
    let mut parser = Parser::new(text);
    assert!(parser.can_parse());
    parser.parse_gemtext();
    parser.get_lines()
}

fn text_of(line: &LineType) -> String {
    match line {
        LineType::Text(s) => format!("text:{s}"),
        LineType::List(s) => format!("list:{s}"),
        LineType::Quote(s) => format!("quote:{s}"),
        LineType::Heading(Heading { title, level }) => format!("h{level}:{title}"),
        LineType::Preformat(v) => format!("pre:{}", v.join("|")),
        LineType::Link(Link { alt, link, f_char, is_relative }) => {
            format!("link:{link}|{alt:?}|{f_char}|{is_relative}")
        }
    }
}

fn parse_texts(text: &str) -> Vec<String> {
    parse(text).iter().map(text_of).collect()
}

#[test]
fn status_line_is_skipped() {
    assert_eq!(parse_texts("20 text/gemini\r\nhello world\r\n"), vec!["text:hello world"]);
}

#[test]
fn headings_by_level() {
    assert_eq!(
        parse_texts("20 ok\n# One\n## Two\n### Three\n#### Four\n"),
        vec!["h1:# One", "h2:## Two", "h3:### Three", "h3:#### Four"]
    );
}

#[test]
fn lists_quotes_and_text() {
    assert_eq!(
        parse_texts("20 ok\n* item\n> said\nplain text\n"),
        vec!["list:* item", "quote:> said", "text:plain text"]
    );
}

#[test]
fn short_lines_become_empty_text() {
    // Lines of fewer than three bytes are shown as empty lines.
    assert_eq!(
        parse_texts("20 ok\n\nab\n#\n=>\n"),
        vec!["text:", "text:", "text:", "text:"]
    );
}

#[test]
fn multibyte_short_line_counts_bytes() {
    // "é" is two bytes, "éa" three.
    assert_eq!(parse_texts("20 ok\né\néa\n"), vec!["text:", "text:éa"]);
}

#[test]
fn link_with_alt_text() {
    assert_eq!(
        parse_texts("20 ok\n=> gemini://example.org/ An   example\tsite\n"),
        vec!["link:gemini://example.org/|Some(\"An example site\")|ab|false"]
    );
}

#[test]
fn relative_link_without_alt() {
    assert_eq!(
        parse_texts("20 ok\n=>   docs/index.gmi  \n"),
        vec!["link:docs/index.gmi|None|ab|true"]
    );
}

#[test]
fn link_without_target() {
    assert_eq!(parse_texts("20 ok\n=>  \n"), vec!["link:|None|ab|true"]);
}

#[test]
fn link_labels_in_order() {
    let texts = parse_texts("20 ok\n=> a\n=> b\n=> c\n=> d\n");
    assert_eq!(
        texts,
        vec!["link:a|None|ab|true", "link:b|None|ac|true", "link:c|None|bc|true", "link:d|None|ad|true"]
    );
}

#[test]
fn last_of_three_hundred_labels() {
    let mut body = String::from("20 ok\n");
    for i in 0..300 {
        body.push_str(&format!("=> l{i}\n"));
    }
    let lines = parse(&body);
    assert_eq!(lines.len(), 300);
    match &lines[299] {
        LineType::Link(l) => assert_eq!(l.f_char, "xy"),
        _ => panic!("expected a link"),
    }
    let expected = EXPECTED_LABELS.split_whitespace().collect::<Vec<_>>();
    assert_eq!(expected.len(), 300);
    for (i, line) in lines.iter().enumerate() {
        match line {
            LineType::Link(l) => assert_eq!(l.f_char, expected[i], "label {i}"),
            _ => panic!("expected a link"),
        }
    }
}

const EXPECTED_LABELS: &str = "ab ac bc ad bd cd ae be ce de af bf cf df ef ag
bg cg dg eg fg ah bh ch dh eh fh gh ai bi ci di
ei fi gi hi aj bj cj dj ej fj gj hj ij ak bk ck
dk ek fk gk hk ik jk al bl cl dl el fl gl hl il
jl kl am bm cm dm em fm gm hm im jm km lm an bn
cn dn en fn gn hn in jn kn ln mn ao bo co do eo
fo go ho io jo ko lo mo no ap bp cp dp ep fp gp
hp ip jp kp lp mp np op aq bq cq dq eq fq gq hq
iq jq kq lq mq nq oq pq ar br cr dr er fr gr hr
ir jr kr lr mr nr or pr qr as bs cs ds es fs gs
hs is js ks ls ms ns os ps qs rs at bt ct dt et
ft gt ht it jt kt lt mt nt ot pt qt rt st au bu
cu du eu fu gu hu iu ju ku lu mu nu ou pu qu ru
su tu av bv cv dv ev fv gv hv iv jv kv lv mv nv
ov pv qv rv sv tv uv aw bw cw dw ew fw gw hw iw
jw kw lw mw nw ow pw qw rw sw tw uw vw ax bx cx
dx ex fx gx hx ix jx kx lx mx nx ox px qx rx sx
tx ux vx wx ay by cy dy ey fy gy hy iy jy ky ly
my ny oy py qy ry sy ty uy vy wy xy";

#[test]
fn too_many_links_is_refused() {
    let mut body = String::from("20 ok\n");
    for i in 0..301 {
        body.push_str(&format!("=> l{i}\n"));
    }
    assert!(!response_parses(&body));
}

#[test]
fn equals_line_that_is_not_a_link_is_refused() {
    assert!(!response_parses("20 ok\n=== title\n"));
    assert!(response_parses("20 ok\n```\n=== inside a block\n```\n"));
}

#[test]
fn empty_response_is_refused() {
    assert!(!response_parses(""));
    assert!(response_parses("20 ok"));
    assert_eq!(parse_texts("20 ok"), Vec::<String>::new());
}

#[test]
fn preformatted_block() {
    assert_eq!(
        parse_texts("20 ok\n```rust\nfn main() {}\n# not a heading\n```\n* after\n"),
        vec!["pre:fn main() {}", "pre:# not a heading", "list:* after"]
    );
}

#[test]
fn short_line_inside_block_is_empty_text() {
    assert_eq!(parse_texts("20 ok\n```\nab\nabc\n```\n"), vec!["text:", "pre:abc"]);
}

#[test]
fn crlf_and_bare_cr() {
    assert_eq!(
        parse_texts("20 ok\r\nline one\r\nline\rtwo\r\r\nlast\r"),
        vec!["text:line one", "text:line\rtwo\r", "text:last\r"]
    );
}

#[test]
fn parsing_twice_is_refused() {
    let mut parser = Parser::new("20 ok\nabc\n");
    parser.parse_gemtext();
    assert!(!parser.can_parse());
    assert_eq!(parser.get_lines().len(), 1);
}

#[test]
fn parsed_lines_are_well_shaped() {
    let lines = parse("20 ok\n# h\n=> gemini://a/ x\n=> b\n* i\n> q\nab\ntext\n```\nabc\n```\n");
    let mut labels = Vec::new();
    for line in &lines {
        match line {
            LineType::Preformat(v) => assert!(v.len() == 1 && v[0].len() >= 3 && !v[0].starts_with("```")),
            LineType::Heading(h) => assert!((1..=3).contains(&h.level) && h.title.starts_with('#')),
            LineType::Link(l) => {
                assert!(l.alt.as_deref() != Some(""));
                assert_eq!(l.is_relative, !l.link.starts_with("gemini://"));
                labels.push(l.f_char.clone());
            }
            LineType::List(s) => assert!(s.starts_with('*')),
            LineType::Quote(s) => assert!(s.starts_with('>')),
            LineType::Text(t) => assert!(t.is_empty() || t.len() >= 3),
        }
    }
    assert_eq!(labels, vec!["ab", "ac"]);
}
