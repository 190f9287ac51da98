//! The glyph each severity prints beside its word where hue cannot render.
use vstd::prelude::*;
use crate::finding::Severity;

verus! {

/// `✗`, `▲` and `·`, in the severities' own order.
pub open spec fn glyph_of(severity: Severity) -> Seq<char> {
    match severity {
        Severity::Error => seq!['\u{2717}'],
        Severity::Warn => seq!['\u{25b2}'],
        Severity::Info => seq!['\u{00b7}'],
    }
}

/// The literal glyph a severity prints beside its word in plain output. The
/// character alone is the whole of what carries the distinction where hue
/// cannot, so no two severities share one.
pub fn glyph(severity: Severity) -> (g: &'static str)
    ensures
        g@ == glyph_of(severity),
{
    match severity {
        Severity::Error => {
            proof {
                reveal_strlit("\u{2717}");
            }
            "\u{2717}"
        },
        Severity::Warn => {
            proof {
                reveal_strlit("\u{25b2}");
            }
            "\u{25b2}"
        },
        Severity::Info => {
            proof {
                reveal_strlit("\u{00b7}");
            }
            "\u{00b7}"
        },
    }
}

/// No two severities print the same glyph.
pub proof fn lemma_glyphs_distinct(a: Severity, b: Severity)
    requires
        a != b,
    ensures
        glyph_of(a) != glyph_of(b),
{
    assert(glyph_of(a)[0] != glyph_of(b)[0]);
}

} // verus!
