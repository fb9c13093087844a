pub mod ast;
pub mod directive;
pub mod fold;
pub mod markdown;
pub mod opacity;
pub mod prepass;
pub mod text;

pub use ast::{
    Block, Cell, Directive, ImageAlign, ImageMeta, ImageSize, InlineSpan, ListItem, Opacity,
    ParseError, Slide, SlideDeck, SourceSpan,
};

use vstd::prelude::*;
use vstd::string::StringSliceAdditionalSpecFns;
use vstd::utf8::*;

verus! {

/// The deck that a markdown `source` makes: the prepass rewrites the source
/// (image lines, slide breaks on double blank lines, indentation marks), then
/// the rewritten text's CommonMark events are folded into slides, cells and
/// speaker notes. Invalid image metadata and indented code blocks are errors.
pub fn parse_deck(source: &str) -> (r: Result<SlideDeck, ParseError>)
    ensures
        match prepass::spec_prepass(source.spec_bytes()) {
            Err(e) => r matches Err(er) && er@ == e,
            Ok(st) => match fold::deck_of(
                markdown::cmark_events(decode_utf8(st.out)),
                st.entries,
                st.metas,
                prepass::spec_lines(source.spec_bytes()),
                source.spec_bytes(),
            ) {
                Ok(dv) => r matches Ok(d) && ast::deck_v(d) == dv && d.source@ == source@,
                Err(e) => r matches Err(er) && er@ == e,
            },
        },
        // Every range in the deck (of slides, cells and blocks, list items
        // included) ends within the source.
        r matches Ok(d) ==> fold::deck_in(ast::deck_v(d), source.spec_bytes().len()),
{
    let out = match prepass::prepass(source) {
        Ok(o) => o,
        Err(e) => {
            return Err(e);
        },
    };
    let src_len: usize = source.as_bytes().len();
    proof {
        encode_utf8_decode_utf8(out.rewritten@);
        let n = source.spec_bytes().len();
        let es = out.entries@;
        let ob = encode_utf8(out.rewritten@);
        assert(src_len == n);
        assert forall|rw: int| 0 <= rw <= ob.len() implies #[trigger] fold::to_orig(rw, es) <= n by {
            let st = prepass::spec_prepass(source.spec_bytes())->Ok_0;
            assert(ob == st.out);
            assert(0 <= prepass::map_back(rw, es, 0, 0) <= n);
        }
    }
    fold::fold(&out, source)
}

/// The name of directive `d`.
pub fn directive_name(d: &Directive) -> (r: &str)
    ensures
        r@ == ast::directive_v(*d).name,
{
    let Directive::Raw { name, .. } = d;
    name.as_str()
}

/// The arguments of directive `d`.
pub fn directive_args(d: &Directive) -> (r: &str)
    ensures
        r@ == ast::directive_v(*d).args,
{
    let Directive::Raw { args, .. } = d;
    args.as_str()
}

} // verus!
