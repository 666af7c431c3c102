//! Colored diagnostics as HTML: colors and styles become CSS classes on
//! `<span>` elements, those of Bootstrap 5.1 or of Tailwind CSS, and text is
//! escaped.
use vstd::prelude::*;

verus! {

/// A terminal color, as diagnostics ask for it.
#[derive(Clone, Copy, Debug, PartialEq, Eq, Structural)]
pub enum Color {
    Black,
    Blue,
    Green,
    Red,
    Cyan,
    Magenta,
    Yellow,
    White,
    Ansi256(u8),
    Rgb(u8, u8, u8),
}

/// The style of the text that follows.
#[derive(Clone, Copy, Debug, PartialEq, Eq, Structural)]
pub struct ColorSpec {
    pub fg: Option<Color>,
    pub bg: Option<Color>,
    pub bold: bool,
    pub dimmed: bool,
    pub italic: bool,
    pub underline: bool,
    /// Whether the styles before are closed first.
    pub reset: bool,
}

/// The CSS framework whose classes the HTML uses.
#[derive(Clone, Copy, Debug, PartialEq, Eq, Structural)]
pub enum Theme {
    Bootstrap,
    Tailwind,
}

/// The class for a foreground color, when the theme has one.
pub open spec fn fg_class(theme: Theme, c: Color) -> Option<Seq<char>> {
    match theme {
        Theme::Bootstrap => bootstrap_fg(c),
        Theme::Tailwind => Some(
            match c {
                Color::Black => "text-zinc-950"@,
                Color::Blue => "text-blue-300"@,
                Color::Green => "text-lime-300"@,
                Color::Red => "text-red-500"@,
                Color::Yellow => "text-amber-300"@,
                _ => "text-zinc-50"@,
            },
        ),
    }
}

/// The class for a background color, when the theme has one.
pub open spec fn bg_class(theme: Theme, c: Color) -> Option<Seq<char>> {
    match theme {
        Theme::Bootstrap => bootstrap_bg(c),
        Theme::Tailwind => Some(
            match c {
                Color::Black => "bg-zinc-950"@,
                Color::Blue => "bg-blue-300"@,
                Color::Green => "bg-lime-300"@,
                Color::Red => "bg-red-500"@,
                Color::Yellow => "bg-amber-300"@,
                _ => "bg-zinc-50"@,
            },
        ),
    }
}

/// The classes for bold, dimmed, italic and underlined text.
pub open spec fn flag_classes(theme: Theme) -> (Seq<char>, Seq<char>, Seq<char>, Seq<char>) {
    match theme {
        Theme::Bootstrap => ("fw-bold"@, "opacity-75"@, "fst-italic"@, "text-decoration-underline"@),
        Theme::Tailwind => ("font-bold"@, "text-opacity-75"@, "italic"@, "underline"@),
    }
}

/// The Bootstrap class for a foreground color, when it has one.
pub open spec fn bootstrap_fg(c: Color) -> Option<Seq<char>> {
    match c {
        Color::Black => Some("text-black"@),
        Color::Blue => Some("text-primary"@),
        Color::Green => Some("text-success"@),
        Color::Red => Some("text-danger"@),
        Color::White => Some("text-white"@),
        Color::Yellow => Some("text-warning"@),
        _ => None,
    }
}

/// The Bootstrap class for a background color, when it has one.
pub open spec fn bootstrap_bg(c: Color) -> Option<Seq<char>> {
    match c {
        Color::Blue => Some("bg-primary"@),
        Color::Black => Some("bg-black"@),
        Color::Green => Some("bg-success"@),
        Color::Red => Some("bg-danger"@),
        Color::White => Some("bg-white"@),
        Color::Yellow => Some("bg-warning"@),
        _ => None,
    }
}

pub open spec fn opt_class(c: Option<Color>, f: spec_fn(Color) -> Option<Seq<char>>) -> Seq<Seq<char>> {
    match c {
        Some(c) => match f(c) {
            Some(s) => seq![s],
            None => seq![],
        },
        None => seq![],
    }
}

pub open spec fn flag_class(b: bool, s: Seq<char>) -> Seq<Seq<char>> {
    if b {
        seq![s]
    } else {
        seq![]
    }
}

/// The classes for a style, in order: foreground, background, bold, dimmed,
/// italic, underline.
pub open spec fn classes(theme: Theme, spec: ColorSpec) -> Seq<Seq<char>> {
    let flags = flag_classes(theme);
    opt_class(spec.fg, |c: Color| fg_class(theme, c)) + opt_class(spec.bg, |c: Color| bg_class(theme, c))
        + flag_class(spec.bold, flags.0) + flag_class(spec.dimmed, flags.1) + flag_class(spec.italic, flags.2)
        + flag_class(spec.underline, flags.3)
}

/// The classes separated by single spaces.
pub open spec fn joined(cs: Seq<Seq<char>>) -> Seq<char>
    decreases cs.len(),
{
    if cs.len() == 0 {
        seq![]
    } else if cs.len() == 1 {
        cs[0]
    } else {
        joined(cs.drop_last()) + seq![' '] + cs.last()
    }
}

/// `n` closing tags.
pub open spec fn closing(n: nat) -> Seq<char>
    decreases n,
{
    if n == 0 {
        seq![]
    } else {
        closing((n - 1) as nat) + "</span>"@
    }
}

/// The opening tag for a style, or nothing when it has no class.
pub open spec fn opening(theme: Theme, spec: ColorSpec) -> Seq<char> {
    let cs = classes(theme, spec);
    if cs.len() == 0 {
        seq![]
    } else {
        "<span class=\""@ + joined(cs) + "\">"@
    }
}

/// HTML for one character of text.
pub open spec fn escape_char(c: char) -> Seq<char> {
    if c == '<' {
        "&lt;"@
    } else if c == '>' {
        "&gt;"@
    } else if c == '&' {
        "&amp;"@
    } else if c == '"' {
        "&quot;"@
    } else if c == '\'' {
        "&#x27;"@
    } else {
        seq![c]
    }
}

/// HTML for text: each character escaped.
pub open spec fn escaped(s: Seq<char>) -> Seq<char>
    decreases s.len(),
{
    if s.len() == 0 {
        seq![]
    } else {
        escaped(s.drop_last()) + escape_char(s.last())
    }
}

/// `askama_escape::escape` with the `Html` escaper: the text with `<`, `>`,
/// `&`, `"` and `'` replaced by their entities.
#[verifier::external_body]
pub fn escape(text: &str) -> (r: String)
    ensures
        r@ == escaped(text@),
{
    askama_escape::escape(text, askama_escape::Html).to_string()
}

/// Writes colored output as HTML; it counts the spans it opened, to close
/// them on a reset.
pub struct HtmlWriter {
    pub span_count: usize,
    pub theme: Theme,
}

impl HtmlWriter {
    /// A writer with Bootstrap classes.
    pub fn new() -> (w: HtmlWriter)
        ensures
            w.span_count == 0,
            w.theme == Theme::Bootstrap,
    {
        HtmlWriter { span_count: 0, theme: Theme::Bootstrap }
    }

    /// A writer with the classes of `theme`.
    pub fn with_theme(theme: Theme) -> (w: HtmlWriter)
        ensures
            w.span_count == 0,
            w.theme == theme,
    {
        HtmlWriter { span_count: 0, theme }
    }

    /// The HTML that closes every open span.
    pub fn reset(&mut self) -> (r: String)
        ensures
            r@ == closing(old(self).span_count as nat),
            final(self).span_count == 0,
            final(self).theme == old(self).theme,
    {
        let mut out = String::new();
        let mut i: usize = 0;
        proof {
            reveal_strlit("</span>");
        }
        while i < self.span_count
            invariant
                i <= self.span_count,
                out@ == closing(i as nat),
            decreases self.span_count - i,
        {
            out.append("</span>");
            i = i + 1;
        }
        self.span_count = 0;
        out
    }

    /// The HTML that switches to a style: the open spans closed first on a
    /// reset, then a span with the style's classes, if it has any.
    pub fn set_color(&mut self, spec: &ColorSpec) -> (r: String)
        requires
            old(self).span_count < usize::MAX,
        ensures
            r@ == (if spec.reset { closing(old(self).span_count as nat) } else { seq![] }) + opening(old(self).theme, *spec),
            final(self).span_count == (if spec.reset { 0 } else { old(self).span_count }) + (if classes(old(self).theme, *spec).len() == 0 { 0int } else { 1 }),
            final(self).theme == old(self).theme,
    {
        let mut out = if spec.reset {
            self.reset()
        } else {
            String::new()
        };
        let cs = style_classes(self.theme, spec);
        if cs.len() > 0 {
            proof {
                reveal_strlit("<span class=\"");
                reveal_strlit("\">");
            }
            out.append("<span class=\"");
            let j = join(&cs);
            out.append(j.as_str());
            out.append("\">");
            self.span_count = self.span_count + 1;
        }
        out
    }
}

fn fg_name(theme: Theme, c: Option<Color>) -> (r: Option<&'static str>)
    ensures
        opt_class(c, |c: Color| fg_class(theme, c)) == (match r {
            Some(s) => seq![s@],
            None => Seq::<Seq<char>>::empty(),
        }),
{
    let c = match c {
        Some(c) => c,
        None => return None,
    };
    match theme {
        Theme::Bootstrap => match c {
            Color::Black => Some("text-black"),
            Color::Blue => Some("text-primary"),
            Color::Green => Some("text-success"),
            Color::Red => Some("text-danger"),
            Color::White => Some("text-white"),
            Color::Yellow => Some("text-warning"),
            _ => None,
        },
        Theme::Tailwind => match c {
            Color::Black => Some("text-zinc-950"),
            Color::Blue => Some("text-blue-300"),
            Color::Green => Some("text-lime-300"),
            Color::Red => Some("text-red-500"),
            Color::Yellow => Some("text-amber-300"),
            _ => Some("text-zinc-50"),
        },
    }
}

fn bg_name(theme: Theme, c: Option<Color>) -> (r: Option<&'static str>)
    ensures
        opt_class(c, |c: Color| bg_class(theme, c)) == (match r {
            Some(s) => seq![s@],
            None => Seq::<Seq<char>>::empty(),
        }),
{
    let c = match c {
        Some(c) => c,
        None => return None,
    };
    match theme {
        Theme::Bootstrap => match c {
            Color::Blue => Some("bg-primary"),
            Color::Black => Some("bg-black"),
            Color::Green => Some("bg-success"),
            Color::Red => Some("bg-danger"),
            Color::White => Some("bg-white"),
            Color::Yellow => Some("bg-warning"),
            _ => None,
        },
        Theme::Tailwind => match c {
            Color::Black => Some("bg-zinc-950"),
            Color::Blue => Some("bg-blue-300"),
            Color::Green => Some("bg-lime-300"),
            Color::Red => Some("bg-red-500"),
            Color::Yellow => Some("bg-amber-300"),
            _ => Some("bg-zinc-50"),
        },
    }
}

/// Appends the class, if there is one.
fn push_class(cs: &mut Vec<&'static str>, c: Option<&'static str>)
    ensures
        final(cs)@.map_values(|s: &str| s@) == old(cs)@.map_values(|s: &str| s@) + (match c {
            Some(s) => seq![s@],
            None => Seq::<Seq<char>>::empty(),
        }),
{
    let ghost before = cs@;
    match c {
        Some(s) => cs.push(s),
        None => {},
    }
    proof {
        assert(cs@.map_values(|s: &str| s@) =~= before.map_values(|s: &str| s@) + (match c {
            Some(s) => seq![s@],
            None => Seq::<Seq<char>>::empty(),
        }));
    }
}

fn flag_name(b: bool, s: &'static str) -> (r: Option<&'static str>)
    ensures
        flag_class(b, s@) == (match r {
            Some(s) => seq![s@],
            None => Seq::<Seq<char>>::empty(),
        }),
{
    if b {
        Some(s)
    } else {
        None
    }
}

/// The classes of a style, in order.
fn style_classes(theme: Theme, spec: &ColorSpec) -> (cs: Vec<&'static str>)
    ensures
        cs@.map_values(|s: &str| s@) == classes(theme, *spec),
{
    let (bold, dimmed, italic, underline) = match theme {
        Theme::Bootstrap => ("fw-bold", "opacity-75", "fst-italic", "text-decoration-underline"),
        Theme::Tailwind => ("font-bold", "text-opacity-75", "italic", "underline"),
    };
    let mut cs: Vec<&'static str> = Vec::new();
    proof {
        assert(cs@.map_values(|s: &str| s@) =~= Seq::<Seq<char>>::empty());
    }
    push_class(&mut cs, fg_name(theme, spec.fg));
    push_class(&mut cs, bg_name(theme, spec.bg));
    push_class(&mut cs, flag_name(spec.bold, bold));
    push_class(&mut cs, flag_name(spec.dimmed, dimmed));
    push_class(&mut cs, flag_name(spec.italic, italic));
    push_class(&mut cs, flag_name(spec.underline, underline));
    proof {
        assert(cs@.map_values(|s: &str| s@) =~= classes(theme, *spec));
    }
    cs
}

/// The words separated by single spaces.
fn join(cs: &Vec<&'static str>) -> (r: String)
    ensures
        r@ == joined(cs@.map_values(|s: &str| s@)),
{
    let ghost views = cs@.map_values(|s: &str| s@);
    let mut out = String::new();
    let mut i: usize = 0;
    proof {
        reveal_strlit(" ");
        assert(views.take(0) =~= Seq::<Seq<char>>::empty());
    }
    while i < cs.len()
        invariant
            i <= cs@.len(),
            views == cs@.map_values(|s: &str| s@),
            out@ == joined(views.take(i as int)),
        decreases cs@.len() - i,
    {
        let ghost before = out@;
        proof {
            reveal_strlit(" ");
        }
        if i > 0 {
            out.append(" ");
        }
        out.append(cs[i]);
        proof {
            let t = views.take(i + 1);
            if i > 0 {
                assert(out@ == before + seq![' '] + cs@[i as int]@);
            } else {
                assert(out@ == before + cs@[i as int]@);
            }
            assert(t.drop_last() =~= views.take(i as int));
            assert(t.last() == cs@[i as int]@);
            if i == 0 {
                assert(t.len() == 1);
                assert(joined(t) == t[0]);
            } else {
                assert(joined(t) == joined(t.drop_last()) + seq![' '] + t.last());
            }
        }
        i = i + 1;
    }
    proof {
        assert(views.take(cs@.len() as int) =~= views);
    }
    out
}

} // verus!
