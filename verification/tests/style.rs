use richstring::{Color, Decoration, Feature, Style};

const ALL_SET: Style = Style {
    foreground: Color::RED,
    background: Color::GREEN,
    bold: Feature::ENABLED,
    italic: Feature::DISABLED,
    decoration: Decoration::UNDERLINE,
};

const OTHER_SET: Style = Style {
    foreground: Color::BLUE,
    background: Color::PURPLE,
    bold: Feature::DISABLED,
    italic: Feature::ENABLED,
    decoration: Decoration::NONE,
};

#[test]
fn test_plain() {
    assert_eq!(
        Style::plain(),
        Style {
            foreground: Color::INHERIT,
            background: Color::INHERIT,
            bold: Feature::INHERIT,
            italic: Feature::INHERIT,
            decoration: Decoration::INHERIT,
        }
    );
}

#[test]
fn test_bitand() {
    assert_eq!(
        Style {
            foreground: Color::INHERIT,
            background: Color::INHERIT,
            bold: Feature::INHERIT,
            italic: Feature::INHERIT,
            decoration: Decoration::INHERIT,
        } & Style {
            foreground: Color::RED,
            background: Color::GREEN,
            bold: Feature::ENABLED,
            italic: Feature::DISABLED,
            decoration: Decoration::UNDERLINE,
        },
        Style {
            foreground: Color::RED,
            background: Color::GREEN,
            bold: Feature::ENABLED,
            italic: Feature::DISABLED,
            decoration: Decoration::UNDERLINE,
        }
    );

    assert_eq!(
        Style {
            foreground: Color::BLUE,
            background: Color::PURPLE,
            bold: Feature::DISABLED,
            italic: Feature::ENABLED,
            decoration: Decoration::NONE,
        } & Style {
            foreground: Color::RED,
            background: Color::GREEN,
            bold: Feature::ENABLED,
            italic: Feature::DISABLED,
            decoration: Decoration::UNDERLINE,
        },
        Style {
            foreground: Color::BLUE,
            background: Color::PURPLE,
            bold: Feature::DISABLED,
            italic: Feature::ENABLED,
            decoration: Decoration::NONE,
        }
    );
}

#[test]
fn merge_is_the_and_operator() {
    assert_eq!(OTHER_SET.merge(ALL_SET), OTHER_SET & ALL_SET);
    assert_eq!(Style::plain().merge(ALL_SET), Style::plain() & ALL_SET);
}

#[test]
fn merge_with_plain_changes_nothing() {
    let bold_on_green = Style {
        foreground: Color::INHERIT,
        background: Color::GREEN,
        bold: Feature::ENABLED,
        italic: Feature::INHERIT,
        decoration: Decoration::INHERIT,
    };
    for style in [Style::plain(), ALL_SET, OTHER_SET, bold_on_green] {
        assert_eq!(Style::plain().merge(style), style);
        assert_eq!(style.merge(Style::plain()), style);
    }
}

#[test]
fn merge_keeps_a_fully_specified_style() {
    let underlined = Style {
        foreground: Color::INHERIT,
        background: Color::INHERIT,
        bold: Feature::INHERIT,
        italic: Feature::INHERIT,
        decoration: Decoration::UNDERLINE,
    };
    for fallback in [Style::plain(), OTHER_SET, underlined] {
        assert_eq!(ALL_SET.merge(fallback), ALL_SET);
    }
}

#[test]
fn merge_takes_each_field_from_the_left_unless_inherited() {
    let left = Style {
        foreground: Color::CYAN,
        background: Color::INHERIT,
        bold: Feature::INHERIT,
        italic: Feature::DISABLED,
        decoration: Decoration::INHERIT,
    };
    let right = Style {
        foreground: Color::WHITE,
        background: Color::DARKGREY,
        bold: Feature::INHERIT,
        italic: Feature::ENABLED,
        decoration: Decoration::LINETHROUGH,
    };
    assert_eq!(
        left.merge(right),
        Style {
            foreground: Color::CYAN,
            background: Color::DARKGREY,
            bold: Feature::INHERIT,
            italic: Feature::DISABLED,
            decoration: Decoration::LINETHROUGH,
        }
    );
    assert_eq!(
        right.merge(left),
        Style {
            foreground: Color::WHITE,
            background: Color::DARKGREY,
            bold: Feature::INHERIT,
            italic: Feature::ENABLED,
            decoration: Decoration::LINETHROUGH,
        }
    );
}

#[test]
fn merge_is_associative_on_samples() {
    let a = Style {
        foreground: Color::INHERIT,
        background: Color::BLUE,
        bold: Feature::INHERIT,
        italic: Feature::INHERIT,
        decoration: Decoration::INHERIT,
    };
    let b = Style {
        foreground: Color::LIGHTRED,
        background: Color::INHERIT,
        bold: Feature::DISABLED,
        italic: Feature::INHERIT,
        decoration: Decoration::INHERIT,
    };
    assert_eq!(a.merge(b).merge(ALL_SET), a.merge(b.merge(ALL_SET)));
    assert_eq!(b.merge(a).merge(OTHER_SET), b.merge(a.merge(OTHER_SET)));
}
