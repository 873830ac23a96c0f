use seiren::geometry::{turn_between, Orientation, Turn};
use seiren::geometry::Orientation::{Down, Left, Right, Up};
use seiren::mir::{Badge, FontFamily, FontSize, FontWeight, NodeId, TerminalPortId};
use seiren::render::{SVGAnchor, SVGBackend, SVGOutput};
use seiren::color::{NamedColor, WebColor};

#[test]
fn text_anchors() {
    assert_eq!(SVGAnchor::Start.text_anchor(), "start");
    assert_eq!(SVGAnchor::Middle.text_anchor(), "middle");
    assert_eq!(SVGAnchor::End.text_anchor(), "end");
}

#[test]
fn font_values() {
    assert_eq!(FontFamily::Monospace1.to_string(), "Monaco,Lucida Console,monospace");
    assert_eq!(FontFamily::Monospace2.to_string(), "Courier New,monospace");
    assert_eq!(FontFamily::SansSerif3.to_string(), "Trebuchet MS,sans-serif");
    assert_eq!(FontWeight::Lighter.to_string(), "lighter");
    assert_eq!(FontWeight::default().to_string(), "normal");
    assert_eq!(FontSize::XXSmall.to_string(), "xx-small");
    assert_eq!(FontSize::default().to_string(), "medium");
}

#[test]
fn turns() {
    assert_eq!(turn_between(Up, Up), Turn::Straight);
    assert_eq!(turn_between(Left, Right), Turn::Reverse);
    assert_eq!(turn_between(Up, Left), Turn::Corner { from: Down, to: Left });
    assert_eq!(turn_between(Right, Down), Turn::Corner { from: Left, to: Down });
    assert_eq!(turn_between(Left, Up), Turn::Corner { from: Right, to: Up });
}

#[test]
fn corners_start_behind_and_end_ahead() {
    for a in [Up, Down, Left, Right] {
        for b in [Up, Down, Left, Right] {
            if let Turn::Corner { from, to } = turn_between(a, b) {
                let (ax, ay) = a.step();
                let (fx, fy) = from.step();
                let (tx, ty) = to.step();
                assert_eq!((fx, fy), (-ax, -ay));
                assert_eq!(to, b);
                assert_eq!(fx * tx + fy * ty, 0);
            }
        }
    }
}

#[test]
fn steps_and_names() {
    assert_eq!(Orientation::Up.step(), (0, -1));
    assert_eq!(Orientation::Right.step(), (1, 0));
    assert_eq!(Orientation::Down.to_string(), "Down");
}

#[test]
fn notebook_block() {
    let out = SVGOutput::new("<svg/>".to_string());
    assert_eq!(out.svg(), "<svg/>");
    assert_eq!(out.display_text(), "EVCXR_BEGIN_CONTENT image/svg+xml\n<svg/>\nEVCXR_END_CONTENT");
    let _backend = SVGBackend::new();
}

#[test]
fn ids_and_badges() {
    assert_eq!(NodeId(12).to_string(), "12");
    assert_eq!(TerminalPortId(NodeId(3), 1).to_string(), "3:1");
    let badge = Badge {
        text: "PK".to_string(),
        color: Some(WebColor::Named(NamedColor::White)),
        bg_color: None,
    };
    let span = badge.into_text_span();
    assert_eq!(span.text, "PK");
    assert_eq!(span.font_family, Some(FontFamily::SansSerif3));
    assert_eq!(span.font_size, Some(FontSize::XXSmall));
    assert_eq!(span.font_weight, None);
}
