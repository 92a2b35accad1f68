//! Resolved styles: everything that describes one message except its text,
//! with the built-in defaults and the ranges a style is held to.
use crate::double::Double;
use crate::error::cat;
use vstd::prelude::*;

verus! {

/// Maximum total lifetime: reveal + hold + vanish. Overlays cannot be dismissed
/// early.
pub const MAX_LIFETIME_MS: u64 = 3_600_000;

/// Character limit checked before allocating layouts, steps and audio onsets.
pub const MAX_TEXT_CHARS: usize = 100_000;

/// Maximum outline width and glow radius in logical pixels. These increase
/// padding, reducing the wrapping width and enlarging the glow mask.
pub const MAX_EDGE_PX: u64 = 128;

/// Widest text block `width` may pin, in logical pixels.
pub const MAX_BLOCK_PX: i32 = 16_384;

/// Most lines a block may reserve.
pub const MAX_LINES: usize = 256;

/// Widest scanline period, in device pixels. It is bounded so the mask cannot
/// be built from a value that leaves a single gap across the whole message.
pub const MAX_SCANLINE_PERIOD_PX: u64 = 128;

/// Default typing speed, also used when the command line enables typing.
pub const DEFAULT_CPS: u64 = 28;

/// Default vanish duration when the preset has none.
pub const DEFAULT_VANISH_MS: u64 = 420;

/// The bit pattern of 0.55.
pub const DEFAULT_GLOW_ALPHA: u64 = 0x3fe1_9999_9999_999a;

/// The bit pattern of 0.35.
pub const DEFAULT_STRENGTH: u64 = 0x3fd6_6666_6666_6666;

/// The bit pattern of 0.5.
pub const DEFAULT_DUTY: u64 = 0x3fe0_0000_0000_0000;

/// The bit pattern of 0.22.
pub const DEFAULT_GAIN: u64 = 0x3fcc_28f5_c28f_5c29;

/// Physical horizontal placement, independent of writing direction. `Center`
/// leaves both layer-shell edges unanchored.
#[derive(Clone, Copy, Debug, PartialEq, Eq, Structural)]
pub enum HAlign {
    Left,
    Center,
    Right,
}

/// Vertical placement; separate from [`HAlign`] to reject invalid axis values.
#[derive(Clone, Copy, Debug, PartialEq, Eq, Structural)]
pub enum VAlign {
    Top,
    Center,
    Bottom,
}

/// Alignment of lines *within* the text block.
#[derive(Clone, Copy, Debug, PartialEq, Eq, Structural)]
pub enum LineAlign {
    Left,
    Center,
    Right,
}

/// How the text appears.
#[derive(Clone, Copy, Debug, PartialEq, Eq, Structural)]
pub enum Reveal {
    /// All at once.
    Instant,
    /// Terminal-style, character by character.
    Typewriter {
        /// Characters per second.
        cps: Double,
        /// Draw a block cursor at the write head.
        cursor: bool,
        /// Vary each keystroke gap by up to this fraction. Range: 0–1.
        jitter: Double,
        /// Keep the current line at the bottom of the block and scroll earlier
        /// lines up. When false, fill from the top.
        scroll: bool,
    },
}

/// Which way a directional effect travels.
#[derive(Clone, Copy, Debug, PartialEq, Eq, Structural)]
pub enum Dir {
    Down,
    Up,
}

/// How the text goes away.
#[derive(Clone, Copy, Debug, PartialEq, Eq, Structural)]
pub enum Vanish {
    /// Disappear on the frame the hold expires.
    Instant,
    /// Alpha to zero.
    Fade { ms: u64 },
    /// CRT power-off: squash vertically to a bright line, flash, gone.
    Collapse { ms: u64 },
    /// A soft edge sweeps through the text and erases it as it passes.
    Wash { ms: u64, dir: Dir },
    /// Erase characters in reverse order, with a caret and blips.
    Untype { ms: u64 },
    /// The text falls apart into blocks, in a fixed pseudo-random order.
    Dissolve { ms: u64 },
}

impl Vanish {
    /// How long the effect takes.
    pub open spec fn duration(self) -> u64 {
        match self {
            Vanish::Instant => 0,
            Vanish::Fade { ms } => ms,
            Vanish::Collapse { ms } => ms,
            Vanish::Wash { ms, .. } => ms,
            Vanish::Untype { ms } => ms,
            Vanish::Dissolve { ms } => ms,
        }
    }

    /// The name of the effect.
    pub open spec fn name(self) -> Seq<char> {
        match self {
            Vanish::Instant => "instant"@,
            Vanish::Fade { .. } => "fade"@,
            Vanish::Collapse { .. } => "collapse"@,
            Vanish::Wash { .. } => "wash"@,
            Vanish::Untype { .. } => "untype"@,
            Vanish::Dissolve { .. } => "dissolve"@,
        }
    }

    pub fn ms(&self) -> (ms: u64)
        ensures
            ms == self.duration(),
    {
        match self {
            Vanish::Instant => 0,
            Vanish::Fade { ms } => *ms,
            Vanish::Collapse { ms } => *ms,
            Vanish::Wash { ms, .. } => *ms,
            Vanish::Untype { ms } => *ms,
            Vanish::Dissolve { ms } => *ms,
        }
    }

    /// Effect name used by TOML and command-line specs.
    pub fn kind(&self) -> (name: &'static str)
        ensures
            name@ == self.name(),
    {
        match self {
            Vanish::Instant => "instant",
            Vanish::Fade { .. } => "fade",
            Vanish::Collapse { .. } => "collapse",
            Vanish::Wash { .. } => "wash",
            Vanish::Untype { .. } => "untype",
            Vanish::Dissolve { .. } => "dissolve",
        }
    }

    /// Whether the effect drives the visible character count and audio.
    pub fn is_untype(&self) -> (r: bool)
        ensures
            r == (*self is Untype),
    {
        matches!(self, Vanish::Untype { .. })
    }
}

/// Halo behind the glyphs and outline. `radius = 0` disables inherited glow.
#[derive(Clone, Debug)]
pub struct Glow {
    pub color: String,
    /// Blur radius in logical pixels; increases padding.
    pub radius: Double,
    /// Peak opacity of the halo where it leaves the glyph.
    pub alpha: Double,
}

/// A glow, by its text and numbers.
#[verifier::ext_equal]
pub ghost struct GlowView {
    pub color: Seq<char>,
    pub radius: Double,
    pub alpha: Double,
}

impl View for Glow {
    type V = GlowView;

    open spec fn view(&self) -> GlowView {
        GlowView { color: self.color@, radius: self.radius, alpha: self.alpha }
    }
}

/// The built-in glow.
pub open spec fn default_glow() -> GlowView {
    GlowView {
        color: "#b8bb26"@,
        radius: Double::whole(12),
        alpha: Double { bits: DEFAULT_GLOW_ALPHA },
    }
}

impl Default for Glow {
    fn default() -> (g: Glow)
        ensures
            g@ == default_glow(),
    {
        Glow {
            color: "#b8bb26".to_owned(),
            radius: Double::from_word(12),
            alpha: Double { bits: DEFAULT_GLOW_ALPHA },
        }
    }
}

/// Horizontal gaps cut through the glyphs, their outline and their halo, to
/// the rhythm of a raster scan. `strength = 0` disables an inherited set.
#[derive(Clone, Copy, Debug, PartialEq, Eq, Structural)]
pub struct Scanlines {
    /// Distance between gap centres, in DEVICE pixels: the pattern belongs to
    /// the screen, so it does not scale with the font.
    pub period: Double,
    /// How far a gap darkens what is under it, 0 (invisible) to 1 (opaque).
    pub strength: Double,
    /// Fraction of each period the gap covers.
    pub duty: Double,
}

/// The built-in raster.
pub open spec fn default_scanlines() -> Scanlines {
    Scanlines {
        period: Double::whole(4),
        strength: Double { bits: DEFAULT_STRENGTH },
        duty: Double { bits: DEFAULT_DUTY },
    }
}

impl Default for Scanlines {
    fn default() -> (s: Scanlines)
        ensures
            s == default_scanlines(),
    {
        Scanlines {
            period: Double::from_word(4),
            strength: Double { bits: DEFAULT_STRENGTH },
            duty: Double { bits: DEFAULT_DUTY },
        }
    }
}

/// Typewriter audio parameters, named to match `blyamk`.
#[derive(Clone, Copy, Debug, PartialEq, Eq, Structural)]
pub struct Sound {
    pub enabled: bool,
    pub freq: Double,
    pub decay_ms: Double,
    pub gain: Double,
    /// Blip once every N revealed characters (1 = every character).
    pub every: usize,
}

/// The built-in sound.
pub open spec fn default_sound() -> Sound {
    Sound {
        enabled: true,
        freq: Double::whole(2100),
        decay_ms: Double::whole(38),
        gain: Double { bits: DEFAULT_GAIN },
        every: 1,
    }
}

impl Default for Sound {
    fn default() -> (s: Sound)
        ensures
            s == default_sound(),
    {
        Sound {
            enabled: true,
            freq: Double::from_word(2100),
            decay_ms: Double::from_word(38),
            gain: Double { bits: DEFAULT_GAIN },
            every: 1,
        }
    }
}

/// Everything that describes one on-screen message except the text itself.
#[derive(Clone, Debug)]
pub struct Style {
    /// Pango font description. Named families must match fontconfig;
    /// unavailable families fall back to the system font.
    pub font: String,
    pub color: String,
    /// Resolved outline colour; `None` disables the stroke.
    pub outline: Option<String>,
    /// Stroke width in logical pixels; defaults to font size / 14.
    pub outline_width: Option<Double>,
    pub halign: HAlign,
    pub valign: VAlign,
    /// Gap from the anchored edge, in logical px. Ignored on a centred axis.
    pub margin: i32,
    /// Width of the text block in logical pixels, excluding padding. `None`
    /// wraps to the monitor and sizes the surface from the measured text.
    pub width: Option<i32>,
    /// Height of the block in lines. `None` sizes the surface from the
    /// message; a reservation keeps it still while the message grows.
    pub lines: Option<usize>,
    pub line_align: LineAlign,
    /// Resolved glow settings; `None` disables glow.
    pub glow: Option<Glow>,
    /// Resolved scanline settings; `None` disables them.
    pub scanlines: Option<Scanlines>,
    /// Hold time after the reveal finishes.
    pub timeout_ms: u64,
    pub reveal: Reveal,
    pub vanish: Vanish,
    pub sound: Sound,
}

/// A style, by its texts and numbers.
#[verifier::ext_equal]
pub ghost struct StyleView {
    pub font: Seq<char>,
    pub color: Seq<char>,
    pub outline: Option<Seq<char>>,
    pub outline_width: Option<Double>,
    pub halign: HAlign,
    pub valign: VAlign,
    pub margin: i32,
    pub width: Option<i32>,
    pub lines: Option<usize>,
    pub line_align: LineAlign,
    pub glow: Option<GlowView>,
    pub scanlines: Option<Scanlines>,
    pub timeout_ms: u64,
    pub reveal: Reveal,
    pub vanish: Vanish,
    pub sound: Sound,
}

/// The text of an optional string.
pub open spec fn string_of(t: Option<String>) -> Option<Seq<char>> {
    match t {
        Some(t) => Some(t@),
        None => None,
    }
}

/// An optional glow, by its text and numbers.
pub open spec fn glow_of(g: Option<Glow>) -> Option<GlowView> {
    match g {
        Some(g) => Some(g@),
        None => None,
    }
}

impl View for Style {
    type V = StyleView;

    open spec fn view(&self) -> StyleView {
        StyleView {
            font: self.font@,
            color: self.color@,
            outline: string_of(self.outline),
            outline_width: self.outline_width,
            halign: self.halign,
            valign: self.valign,
            margin: self.margin,
            width: self.width,
            lines: self.lines,
            line_align: self.line_align,
            glow: glow_of(self.glow),
            scanlines: self.scanlines,
            timeout_ms: self.timeout_ms,
            reveal: self.reveal,
            vanish: self.vanish,
            sound: self.sound,
        }
    }
}

/// The built-in style.
pub open spec fn default_style() -> StyleView {
    StyleView {
        font: "Monospace 72"@,
        color: "#b8bb26"@,
        outline: Some("#1d2021"@),
        outline_width: None,
        halign: HAlign::Center,
        valign: VAlign::Center,
        margin: 64,
        width: None,
        lines: None,
        line_align: LineAlign::Left,
        glow: None,
        scanlines: None,
        timeout_ms: 5000,
        reveal: Reveal::Typewriter {
            cps: Double::whole(DEFAULT_CPS as nat),
            cursor: true,
            jitter: Double { bits: 0 },
            scroll: false,
        },
        vanish: Vanish::Collapse { ms: DEFAULT_VANISH_MS },
        sound: default_sound(),
    }
}

impl Default for Style {
    fn default() -> (s: Style)
        ensures
            s@ == default_style(),
    {
        Style {
            font: "Monospace 72".to_owned(),
            color: "#b8bb26".to_owned(),
            outline: Some("#1d2021".to_owned()),
            outline_width: None,
            halign: HAlign::Center,
            valign: VAlign::Center,
            margin: 64,
            width: None,
            lines: None,
            line_align: LineAlign::Left,
            glow: None,
            scanlines: None,
            timeout_ms: 5000,
            reveal: Reveal::Typewriter {
                cps: Double::from_word(DEFAULT_CPS),
                cursor: true,
                jitter: Double { bits: 0 },
                scroll: false,
            },
            vanish: Vanish::Collapse { ms: DEFAULT_VANISH_MS },
            sound: Sound::default(),
        }
    }
}

/// Why a style is refused, with the value that is out of range.
#[derive(Clone, Copy, Debug, PartialEq, Eq, Structural)]
pub enum StyleError {
    Timeout(u64),
    OutlineWidth(Double),
    Jitter(Double),
    CpsNotFinite,
    CpsNotPositive(Double),
    VanishMs(u64),
    GlowRadius(Double),
    GlowAlpha(Double),
    Width(i32),
    Lines(usize),
    ScanlinePeriod(Double),
    ScanlineStrength(Double),
    ScanlineDuty(Double),
    SoundEvery(usize),
    SoundFreq(Double),
    SoundDecay(Double),
    SoundGain(Double),
}

/// Whether a double lies between two whole numbers, ends included.
pub open spec fn within(low: nat, d: Double, high: nat) -> bool {
    Double::whole(low).at_most(d) && d.at_most(Double::whole(high))
}

fn is_within(low: u64, d: Double, high: u64) -> (r: bool)
    ensures
        r == within(low as nat, d, high as nat),
{
    Double::from_word(low).le(d) && d.le(Double::from_word(high))
}

/// The first of two findings.
pub open spec fn first(a: Option<StyleError>, b: Option<StyleError>) -> Option<StyleError> {
    if a is Some {
        a
    } else {
        b
    }
}

/// A finding, unless a condition holds.
pub open spec fn unless(holds: bool, e: StyleError) -> Option<StyleError> {
    if holds {
        None
    } else {
        Some(e)
    }
}

/// What is out of range in a reveal.
pub open spec fn reveal_fault(reveal: Reveal) -> Option<StyleError> {
    match reveal {
        Reveal::Instant => None,
        Reveal::Typewriter { cps, jitter, .. } => first(
            unless(within(0, jitter, 1), StyleError::Jitter(jitter)),
            first(
                unless(cps.finite(), StyleError::CpsNotFinite),
                unless(Double::whole(0).below(cps), StyleError::CpsNotPositive(cps)),
            ),
        ),
    }
}

/// What is out of range in a glow.
pub open spec fn glow_fault(glow: Option<GlowView>) -> Option<StyleError> {
    match glow {
        None => None,
        Some(g) => first(
            unless(within(0, g.radius, MAX_EDGE_PX as nat), StyleError::GlowRadius(g.radius)),
            unless(within(0, g.alpha, 1), StyleError::GlowAlpha(g.alpha)),
        ),
    }
}

/// What is out of range in the block's own size.
pub open spec fn block_fault(width: Option<i32>, lines: Option<usize>) -> Option<StyleError> {
    first(
        match width {
            None => None,
            Some(w) => unless(1 <= w <= MAX_BLOCK_PX, StyleError::Width(w)),
        },
        match lines {
            None => None,
            Some(n) => unless(1 <= n <= MAX_LINES, StyleError::Lines(n)),
        },
    )
}

/// What is out of range in a raster. Below two device pixels a gap and its
/// gap-free half share one pixel; a duty of 1 would erase the text.
pub open spec fn scanlines_fault(scanlines: Option<Scanlines>) -> Option<StyleError> {
    match scanlines {
        None => None,
        Some(s) => first(
            unless(
                within(2, s.period, MAX_SCANLINE_PERIOD_PX as nat),
                StyleError::ScanlinePeriod(s.period),
            ),
            first(
                unless(within(0, s.strength, 1), StyleError::ScanlineStrength(s.strength)),
                unless(
                    Double::whole(0).at_most(s.duty) && s.duty.below(Double::whole(1)),
                    StyleError::ScanlineDuty(s.duty),
                ),
            ),
        ),
    }
}

/// What is out of range in a sound. `decay_ms` sizes the synth buffer.
pub open spec fn sound_fault(sound: Sound) -> Option<StyleError> {
    first(
        unless(sound.every >= 1, StyleError::SoundEvery(sound.every)),
        first(
            unless(within(100, sound.freq, 8000), StyleError::SoundFreq(sound.freq)),
            first(
                unless(within(10, sound.decay_ms, 3000), StyleError::SoundDecay(sound.decay_ms)),
                unless(within(0, sound.gain, 1), StyleError::SoundGain(sound.gain)),
            ),
        ),
    )
}

/// What is out of range in a style: the first finding, in the order in which
/// the ranges are checked.
pub open spec fn fault(s: StyleView) -> Option<StyleError> {
    first(
        unless(s.timeout_ms <= MAX_LIFETIME_MS, StyleError::Timeout(s.timeout_ms)),
        first(
            match s.outline_width {
                None => None,
                Some(w) => unless(within(0, w, MAX_EDGE_PX as nat), StyleError::OutlineWidth(w)),
            },
            first(
                reveal_fault(s.reveal),
                first(
                    unless(
                        s.vanish.duration() <= MAX_LIFETIME_MS,
                        StyleError::VanishMs(s.vanish.duration()),
                    ),
                    first(
                        glow_fault(s.glow),
                        first(
                            block_fault(s.width, s.lines),
                            first(scanlines_fault(s.scanlines), sound_fault(s.sound)),
                        ),
                    ),
                ),
            ),
        ),
    )
}

impl Style {
    /// Validate ranges after resolving the selected preset and the command
    /// line.
    pub fn validate(&self) -> (r: Result<(), StyleError>)
        ensures
            r == match fault(self@) {
                None => Ok::<(), StyleError>(()),
                Some(e) => Err(e),
            },
    {
        if self.timeout_ms > MAX_LIFETIME_MS {
            return Err(StyleError::Timeout(self.timeout_ms));
        }
        if let Some(w) = self.outline_width {
            if !is_within(0, w, MAX_EDGE_PX) {
                return Err(StyleError::OutlineWidth(w));
            }
        }
        if let Reveal::Typewriter { jitter, cps, .. } = self.reveal {
            if !is_within(0, jitter, 1) {
                return Err(StyleError::Jitter(jitter));
            }
            // Reject NaN before comparisons; it would invalidate timeline
            // arithmetic.
            if !cps.is_finite() {
                return Err(StyleError::CpsNotFinite);
            }
            // Use `Reveal::Instant` to disable typing; zero cps would retain
            // caret behaviour.
            if !Double::from_word(0).lt(cps) {
                return Err(StyleError::CpsNotPositive(cps));
            }
        }
        if self.vanish.ms() > MAX_LIFETIME_MS {
            return Err(StyleError::VanishMs(self.vanish.ms()));
        }
        if let Some(glow) = &self.glow {
            if !is_within(0, glow.radius, MAX_EDGE_PX) {
                return Err(StyleError::GlowRadius(glow.radius));
            }
            if !is_within(0, glow.alpha, 1) {
                return Err(StyleError::GlowAlpha(glow.alpha));
            }
        }
        if let Some(w) = self.width {
            if w < 1 || w > MAX_BLOCK_PX {
                return Err(StyleError::Width(w));
            }
        }
        if let Some(n) = self.lines {
            if n < 1 || n > MAX_LINES {
                return Err(StyleError::Lines(n));
            }
        }
        if let Some(sl) = &self.scanlines {
            if !is_within(2, sl.period, MAX_SCANLINE_PERIOD_PX) {
                return Err(StyleError::ScanlinePeriod(sl.period));
            }
            if !is_within(0, sl.strength, 1) {
                return Err(StyleError::ScanlineStrength(sl.strength));
            }
            if !Double::from_word(0).le(sl.duty) || !sl.duty.lt(Double::from_word(1)) {
                return Err(StyleError::ScanlineDuty(sl.duty));
            }
        }
        let sound: &Sound = &self.sound;
        if sound.every < 1 {
            return Err(StyleError::SoundEvery(sound.every));
        }
        if !is_within(100, sound.freq, 8000) {
            return Err(StyleError::SoundFreq(sound.freq));
        }
        if !is_within(10, sound.decay_ms, 3000) {
            return Err(StyleError::SoundDecay(sound.decay_ms));
        }
        if !is_within(0, sound.gain, 1) {
            return Err(StyleError::SoundGain(sound.gain));
        }
        Ok(())
    }
}

/// A signed number in decimal.
pub open spec fn signed_decimal(n: int) -> Seq<char> {
    if n < 0 {
        "-"@ + crate::text::decimal((-n) as nat)
    } else {
        crate::text::decimal(n as nat)
    }
}

impl StyleError {
    /// The double that was refused, if the finding is about one.
    pub open spec fn number(self) -> Option<Double> {
        match self {
            StyleError::OutlineWidth(d) => Some(d),
            StyleError::Jitter(d) => Some(d),
            StyleError::CpsNotPositive(d) => Some(d),
            StyleError::GlowRadius(d) => Some(d),
            StyleError::GlowAlpha(d) => Some(d),
            StyleError::ScanlinePeriod(d) => Some(d),
            StyleError::ScanlineStrength(d) => Some(d),
            StyleError::ScanlineDuty(d) => Some(d),
            StyleError::SoundFreq(d) => Some(d),
            StyleError::SoundDecay(d) => Some(d),
            StyleError::SoundGain(d) => Some(d),
            _ => None,
        }
    }

    /// The double that was refused, if the finding is about one.
    pub fn refused(&self) -> (r: Option<Double>)
        ensures
            r == self.number(),
    {
        match self {
            StyleError::OutlineWidth(d) => Some(*d),
            StyleError::Jitter(d) => Some(*d),
            StyleError::CpsNotPositive(d) => Some(*d),
            StyleError::GlowRadius(d) => Some(*d),
            StyleError::GlowAlpha(d) => Some(*d),
            StyleError::ScanlinePeriod(d) => Some(*d),
            StyleError::ScanlineStrength(d) => Some(*d),
            StyleError::ScanlineDuty(d) => Some(*d),
            StyleError::SoundFreq(d) => Some(*d),
            StyleError::SoundDecay(d) => Some(*d),
            StyleError::SoundGain(d) => Some(*d),
            _ => None,
        }
    }

    /// The message. `shown` is the refused double as it is to be shown.
    pub open spec fn told(self, shown: Seq<char>) -> Seq<char> {
        match self {
            StyleError::Timeout(ms) => "timeout_ms is "@ + crate::text::decimal(ms as nat)
                + " but the maximum is 3600000"@,
            StyleError::OutlineWidth(_) => "outline_width must be between 0 and 128, got "@ + shown,
            StyleError::Jitter(_) => "reveal.jitter must be between 0 and 1, got "@ + shown,
            StyleError::CpsNotFinite => "reveal.cps must be a finite number"@,
            StyleError::CpsNotPositive(_) => "reveal.cps must be positive, got "@ + shown,
            StyleError::VanishMs(ms) => "vanish ms is "@ + crate::text::decimal(ms as nat)
                + " but the maximum is 3600000"@,
            StyleError::GlowRadius(_) => "glow.radius must be between 0 and 128, got "@ + shown,
            StyleError::GlowAlpha(_) => "glow.alpha must be between 0 and 1, got "@ + shown,
            StyleError::Width(w) => "width must be between 1 and 16384, got "@ + signed_decimal(
                w as int,
            ),
            StyleError::Lines(n) => "lines must be between 1 and 256, got "@ + crate::text::decimal(
                n as nat,
            ),
            StyleError::ScanlinePeriod(_) => "scanlines.period must be between 2 and 128, got "@
                + shown,
            StyleError::ScanlineStrength(_) => "scanlines.strength must be between 0 and 1, got "@
                + shown,
            StyleError::ScanlineDuty(_) => "scanlines.duty must be at least 0 and below 1, got "@
                + shown,
            StyleError::SoundEvery(n) => "sound.every must be at least 1, got "@
                + crate::text::decimal(n as nat),
            StyleError::SoundFreq(_) => "sound.freq must be between 100 and 8000 Hz, got "@ + shown,
            StyleError::SoundDecay(_) => "sound.decay_ms must be between 10 and 3000, got "@
                + shown,
            StyleError::SoundGain(_) => "sound.gain must be between 0 and 1, got "@ + shown,
        }
    }

    /// The message. `shown` is the refused double as it is to be shown.
    pub fn message(&self, shown: &str) -> (text: String)
        ensures
            text@ == self.told(shown@),
    {
        match self {
            StyleError::Timeout(ms) => cat(
                cat("timeout_ms is ", crate::text::to_decimal(*ms).as_str()).as_str(),
                " but the maximum is 3600000",
            ),
            StyleError::OutlineWidth(_) => cat("outline_width must be between 0 and 128, got ", shown),
            StyleError::Jitter(_) => cat("reveal.jitter must be between 0 and 1, got ", shown),
            StyleError::CpsNotFinite => "reveal.cps must be a finite number".to_owned(),
            StyleError::CpsNotPositive(_) => cat("reveal.cps must be positive, got ", shown),
            StyleError::VanishMs(ms) => cat(
                cat("vanish ms is ", crate::text::to_decimal(*ms).as_str()).as_str(),
                " but the maximum is 3600000",
            ),
            StyleError::GlowRadius(_) => cat("glow.radius must be between 0 and 128, got ", shown),
            StyleError::GlowAlpha(_) => cat("glow.alpha must be between 0 and 1, got ", shown),
            StyleError::Width(w) => {
                let w: i64 = *w as i64;
                let n: String = if w < 0 {
                    cat("-", crate::text::to_decimal((-w) as u64).as_str())
                } else {
                    crate::text::to_decimal(w as u64)
                };
                cat("width must be between 1 and 16384, got ", n.as_str())
            },
            StyleError::Lines(n) => cat(
                "lines must be between 1 and 256, got ",
                crate::text::to_decimal(*n as u64).as_str(),
            ),
            StyleError::ScanlinePeriod(_) => cat(
                "scanlines.period must be between 2 and 128, got ",
                shown,
            ),
            StyleError::ScanlineStrength(_) => cat(
                "scanlines.strength must be between 0 and 1, got ",
                shown,
            ),
            StyleError::ScanlineDuty(_) => cat(
                "scanlines.duty must be at least 0 and below 1, got ",
                shown,
            ),
            StyleError::SoundEvery(n) => cat(
                "sound.every must be at least 1, got ",
                crate::text::to_decimal(*n as u64).as_str(),
            ),
            StyleError::SoundFreq(_) => cat("sound.freq must be between 100 and 8000 Hz, got ", shown),
            StyleError::SoundDecay(_) => cat("sound.decay_ms must be between 10 and 3000, got ", shown),
            StyleError::SoundGain(_) => cat("sound.gain must be between 0 and 1, got ", shown),
        }
    }
}

/// What lies within two whole numbers, by its value.
pub(crate) proof fn lemma_within(low: nat, d: Double, high: nat)
    requires
        low <= 16384,
        high <= 16384,
    ensures
        within(low, d, high) <==> !d.nan() && low * crate::double::one() <= d.value() <= high
            * crate::double::one(),
{
    crate::order::lemma_whole(low);
    crate::order::lemma_whole(high);
}

/// The built-in style, halo and raster are within their ranges.
pub proof fn lemma_defaults_are_valid()
    ensures
        fault(default_style()) is None,
        glow_fault(Some(default_glow())) is None,
        scanlines_fault(Some(default_scanlines())) is None,
{
    let w = crate::double::one();
    crate::rounding::lemma_two_to_pos(1074);
    crate::order::lemma_whole(0);
    crate::order::lemma_whole(1);
    crate::order::lemma_whole(4);
    crate::order::lemma_whole(12);
    crate::order::lemma_whole(28);
    crate::order::lemma_whole(38);
    crate::order::lemma_whole(2100);
    lemma_within(0, Double { bits: 0 }, 1);
    lemma_within(100, Double::whole(2100), 8000);
    lemma_within(10, Double::whole(38), 3000);
    lemma_within(0, Double { bits: DEFAULT_GAIN }, 1);
    lemma_within(0, Double::whole(12), MAX_EDGE_PX as nat);
    lemma_within(0, Double { bits: DEFAULT_GLOW_ALPHA }, 1);
    lemma_within(2, Double::whole(4), MAX_SCANLINE_PERIOD_PX as nat);
    lemma_within(0, Double { bits: DEFAULT_STRENGTH }, 1);
    crate::order::lemma_fraction(Double { bits: 0 });
    crate::order::lemma_fraction(Double { bits: DEFAULT_GAIN });
    crate::order::lemma_fraction(Double { bits: DEFAULT_GLOW_ALPHA });
    crate::order::lemma_fraction(Double { bits: DEFAULT_STRENGTH });
    crate::order::lemma_fraction(Double { bits: DEFAULT_DUTY });
}

/// Whether a double is a number from `low` to `high`, ends included.
pub open spec fn between(low: nat, d: Double, high: nat) -> bool {
    !d.nan() && low * crate::double::one() <= d.value() <= high * crate::double::one()
}

/// The ranges of a style, by value: every number in it is one, and lies between
/// its bounds.
pub open spec fn in_range(s: StyleView) -> bool {
    &&& s.timeout_ms <= 3_600_000
    &&& s.vanish.duration() <= 3_600_000
    &&& s.outline_width matches Some(w) ==> between(0, w, 128)
    &&& s.reveal matches Reveal::Typewriter { cps, jitter, .. } ==> cps.finite() && cps.value() > 0
        && between(0, jitter, 1)
    &&& s.glow matches Some(g) ==> between(0, g.radius, 128) && between(0, g.alpha, 1)
    &&& s.width matches Some(w) ==> 1 <= w <= 16384
    &&& s.lines matches Some(n) ==> 1 <= n <= 256
    &&& s.scanlines matches Some(sl) ==> between(2, sl.period, 128) && between(0, sl.strength, 1)
        && between(0, sl.duty, 1) && sl.duty.value() < crate::double::one()
    &&& s.sound.every >= 1
    &&& between(100, s.sound.freq, 8000)
    &&& between(10, s.sound.decay_ms, 3000)
    &&& between(0, s.sound.gain, 1)
}

/// A style is valid exactly where every value lies in its range.
pub proof fn lemma_valid_style(s: StyleView)
    ensures
        fault(s) is None <==> in_range(s),
{
    crate::order::lemma_whole(0);
    crate::order::lemma_whole(1);
    match s.outline_width {
        Some(w) => lemma_within(0, w, 128),
        None => {},
    }
    match s.reveal {
        Reveal::Typewriter { jitter, .. } => lemma_within(0, jitter, 1),
        Reveal::Instant => {},
    }
    match s.glow {
        Some(g) => {
            lemma_within(0, g.radius, 128);
            lemma_within(0, g.alpha, 1);
        },
        None => {},
    }
    match s.scanlines {
        Some(sl) => {
            lemma_within(2, sl.period, 128);
            lemma_within(0, sl.strength, 1);
        },
        None => {},
    }
    lemma_within(100, s.sound.freq, 8000);
    lemma_within(10, s.sound.decay_ms, 3000);
    lemma_within(0, s.sound.gain, 1);
}

} // verus!
