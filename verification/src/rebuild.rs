//! Code generator: lowers a parsed document into Lua source text together
//! with a position map over the generated output.
//!
//! Generation is a pure function of the document: the specification functions
//! below say, character by character, what text and what map entries each
//! construct produces, and every executable generator function is proved to
//! return exactly what they describe.

use vstd::prelude::*;

use crate::parser::Ast;
use crate::parser::AstV;
use crate::parser::Block;
use crate::parser::BlockV;
use crate::parser::Condition;
use crate::parser::Effect;
use crate::parser::Slice;
use crate::parser::Statement;
use crate::parser::StatementV;
use crate::parser::ast_wf;
use crate::parser::block_bounded;
use crate::parser::blocks_bounded;
use crate::parser::slice_bounded;
use crate::parser::stmt_bounded;
use crate::parser::view_blocks;
use crate::parser::view_stmts;

verus! {

broadcast use vstd::seq::Seq::add_empty_left, vstd::seq::Seq::add_empty_right;

// ---------------------------------------------------------------------------
// Position map
// ---------------------------------------------------------------------------

/// The construct kind a generated character range is tagged with.  Some
/// kinds are defined for downstream tooling but are not emitted by the
/// current lowering.
#[derive(Debug, Clone, Copy, PartialEq, Eq)]
pub enum Tag {
    Statement,
    Block,
    Effect,
    Effects,
    Condition,
    Conditions,
    Output,
}

/// The position map: ranges of the generated output, each tagged with the
/// construct that produced it, in emission order.  Ranges may nest or
/// overlap.
#[derive(Debug, Default, PartialEq)]
pub struct Metadata(pub Vec<(Slice, Tag)>);

impl View for Metadata {
    type V = Seq<(Slice, Tag)>;

    open spec fn view(&self) -> Seq<(Slice, Tag)> {
        self.0@
    }
}

// ---------------------------------------------------------------------------
// What each construct renders to
// ---------------------------------------------------------------------------

/// The text a span refers to.
pub open spec fn resolve(src: Seq<char>, sl: Slice) -> Seq<char> {
    src.subrange(sl.0 as int, sl.0 + sl.1)
}

/// `n` spaces.
pub open spec fn spaces(n: nat) -> Seq<char> {
    Seq::new(n, |i: int| ' ')
}

/// The span's text in double quotes.
pub open spec fn quoted(src: Seq<char>, sl: Slice) -> Seq<char> {
    "\""@ + resolve(src, sl) + "\""@
}

/// The comma-joined quoted argument list, from argument `i` on.
pub open spec fn args_text_from(args: Seq<Slice>, src: Seq<char>, i: int) -> Seq<char>
    decreases args.len() - i,
{
    if i < 0 || i >= args.len() {
        Seq::empty()
    } else {
        (if i == 0 {
            Seq::empty()
        } else {
            ","@
        }) + quoted(src, args[i]) + args_text_from(args, src, i + 1)
    }
}

pub open spec fn args_text(args: Seq<Slice>, src: Seq<char>) -> Seq<char> {
    args_text_from(args, src, 0)
}

/// One block rendered as a boolean condition expression (one line).
pub open spec fn cond_block_text(b: BlockV, src: Seq<char>) -> Seq<char> {
    match b {
        BlockV::InfoPortion { key, inverted } => (if inverted {
            "not db.actor:has_info"@
        } else {
            "db.actor:has_info"@
        }) + "(\""@ + resolve(src, key) + "\")\n"@,
        BlockV::Call { function, args, inverted } => (if inverted {
            "not "@
        } else {
            Seq::empty()
        }) + "xr_conditions."@ + resolve(src, function) + "("@ + args_text(args, src) + ")\n"@,
        BlockV::Chance { val } => "math.random(1, 100) > "@ + resolve(src, val) + "\n"@,
    }
}

/// One block rendered as an effect statement (one line).
pub open spec fn eff_block_text(b: BlockV, src: Seq<char>) -> Seq<char> {
    match b {
        BlockV::InfoPortion { key, inverted } => (if inverted {
            "db.actor:disable_info_portion"@
        } else {
            "db.actor:give_info_portion"@
        }) + "(\""@ + resolve(src, key) + "\")\n"@,
        BlockV::Call { function, args, inverted: _ } => "xr_effects."@ + resolve(src, function)
            + "("@ + args_text(args, src) + ")\n"@,
        BlockV::Chance { val } => "math.random(1, 100) > "@ + resolve(src, val) + "\n"@,
    }
}

/// Condition text from block `i` on: blocks joined by `and` at eight extra
/// spaces of indentation.
pub open spec fn cond_text_from(blocks: Seq<BlockV>, src: Seq<char>, indent: nat, i: int) -> Seq<
    char,
>
    decreases blocks.len() - i,
{
    if i < 0 || i >= blocks.len() {
        Seq::empty()
    } else {
        (if i == 0 {
            Seq::empty()
        } else {
            spaces(indent + 8) + "and "@
        }) + cond_block_text(blocks[i], src) + cond_text_from(blocks, src, indent, i + 1)
    }
}

pub open spec fn cond_text(blocks: Seq<BlockV>, src: Seq<char>, indent: nat) -> Seq<char> {
    cond_text_from(blocks, src, indent, 0)
}

/// Map entries for the condition blocks from `i` on; `pos` is the output
/// position at which block `i`'s separator starts.
pub open spec fn cond_meta_from(
    blocks: Seq<BlockV>,
    src: Seq<char>,
    indent: nat,
    i: int,
    pos: int,
) -> Seq<(Slice, Tag)>
    decreases blocks.len() - i,
{
    if i < 0 || i >= blocks.len() {
        Seq::empty()
    } else {
        let sep: int = if i == 0 {
            0
        } else {
            indent + 8 + 4
        } as int;
        let piece = cond_block_text(blocks[i], src);
        seq![(Slice((pos + sep) as usize, piece.len() as usize), Tag::Condition)]
            + cond_meta_from(blocks, src, indent, i + 1, pos + sep + piece.len())
    }
}

/// Effect text from block `i` on: each block on its own indented line.
pub open spec fn eff_text_from(blocks: Seq<BlockV>, src: Seq<char>, indent: nat, i: int) -> Seq<
    char,
>
    decreases blocks.len() - i,
{
    if i < 0 || i >= blocks.len() {
        Seq::empty()
    } else {
        spaces(indent) + eff_block_text(blocks[i], src) + eff_text_from(blocks, src, indent, i + 1)
    }
}

pub open spec fn eff_text(blocks: Seq<BlockV>, src: Seq<char>, indent: nat) -> Seq<char> {
    eff_text_from(blocks, src, indent, 0)
}

/// Map entries for the effect blocks from `i` on; `pos` is the output
/// position at which block `i`'s indentation starts.
pub open spec fn eff_meta_from(
    blocks: Seq<BlockV>,
    src: Seq<char>,
    indent: nat,
    i: int,
    pos: int,
) -> Seq<(Slice, Tag)>
    decreases blocks.len() - i,
{
    if i < 0 || i >= blocks.len() {
        Seq::empty()
    } else {
        let piece = eff_block_text(blocks[i], src);
        seq![(Slice(pos as usize, piece.len() as usize), Tag::Effect)]
            + eff_meta_from(blocks, src, indent, i + 1, pos + indent + piece.len())
    }
}

// ---------------------------------------------------------------------------
// What a statement and a document render to
// ---------------------------------------------------------------------------

/// Whether the statement carries a non-empty condition (and so renders an
/// `if` header, deeper indentation and a closing `end`).
pub open spec fn stmt_has_conds(st: StatementV) -> bool {
    match st.condition {
        Some(c) => c.len() > 0,
        None => false,
    }
}

/// The extra indentation of a guarded statement's body.
pub open spec fn nest_of(st: StatementV) -> nat {
    if stmt_has_conds(st) {
        4
    } else {
        0
    }
}

/// The `return` line: the quoted output text, or the Lua nil.
pub open spec fn ret_text(st: StatementV, src: Seq<char>) -> Seq<char> {
    "return "@ + match st.out {
        Some(sl) => quoted(src, sl),
        None => "nil"@,
    }
}

/// The `if .. then` header, empty when there is no non-empty condition.
pub open spec fn cond_header(st: StatementV, src: Seq<char>, indent: nat) -> Seq<char> {
    if stmt_has_conds(st) {
        spaces(indent) + "if "@ + spaces(indent) + cond_text(st.condition->Some_0, src, indent)
            + spaces(indent) + "then\n"@
    } else {
        Seq::empty()
    }
}

/// The rendered effect section, empty when no effect group was written.
pub open spec fn eff_part(st: StatementV, src: Seq<char>, indent: nat) -> Seq<char> {
    match st.effects {
        Some(e) => spaces(indent) + eff_text(e, src, indent + nest_of(st)),
        None => Seq::empty(),
    }
}

/// The closing `end` line of a guarded statement.
pub open spec fn end_part(st: StatementV, indent: nat) -> Seq<char> {
    if stmt_has_conds(st) {
        spaces(indent) + "\nend\n"@
    } else {
        Seq::empty()
    }
}

/// Everything one statement renders to.
pub open spec fn stmt_text(st: StatementV, src: Seq<char>, indent: nat) -> Seq<char> {
    cond_header(st, src, indent) + eff_part(st, src, indent) + spaces(indent + nest_of(st))
        + ret_text(st, src) + end_part(st, indent)
}

/// The map entries one statement contributes.  `ix` is the caller-supplied
/// base offset; `pos` is the position of the statement within the output.
/// Condition and effect entries are placed relative to `ix`, the section
/// entries relative to the output start, as emission computes them.
pub open spec fn stmt_meta(st: StatementV, src: Seq<char>, indent: nat, ix: int, pos: int) -> Seq<
    (Slice, Tag),
> {
    let centries = if stmt_has_conds(st) {
        cond_meta_from(st.condition->Some_0, src, indent, 0, ix + 3 + pos)
    } else {
        Seq::empty()
    };
    let pos1 = pos + cond_header(st, src, indent).len();
    let eentries = match st.effects {
        Some(e) => eff_meta_from(e, src, indent + nest_of(st), 0, ix + pos1) + seq![
            (
                Slice(pos1 as usize, eff_text(e, src, indent + nest_of(st)).len() as usize),
                Tag::Effects,
            ),
        ],
        None => Seq::empty(),
    };
    let pos2 = pos1 + eff_part(st, src, indent).len();
    centries + eentries + seq![
        (Slice(pos2 as usize, ret_text(st, src).len() as usize), Tag::Output),
    ]
}

/// The blank separator line standing before every statement but the first.
pub open spec fn doc_sep(indent: nat, i: int) -> Seq<char> {
    if i == 0 {
        Seq::empty()
    } else {
        spaces(indent) + "\n"@
    }
}

/// Document text from statement `i` on.
pub open spec fn doc_text_from(sts: Seq<StatementV>, src: Seq<char>, indent: nat, i: int) -> Seq<
    char,
>
    decreases sts.len() - i,
{
    if i < 0 || i >= sts.len() {
        Seq::empty()
    } else {
        doc_sep(indent, i) + stmt_text(sts[i], src, indent) + doc_text_from(sts, src, indent, i + 1)
    }
}

/// Everything the document renders to.
pub open spec fn doc_text(a: AstV, indent: nat) -> Seq<char> {
    doc_text_from(a.statements, a.src, indent, 0)
}

/// Map entries of the statements from `i` on; `pos` is the output position
/// at which statement `i`'s separator starts.
pub open spec fn doc_meta_from(
    sts: Seq<StatementV>,
    src: Seq<char>,
    indent: nat,
    ix: int,
    i: int,
    pos: int,
) -> Seq<(Slice, Tag)>
    decreases sts.len() - i,
{
    if i < 0 || i >= sts.len() {
        Seq::empty()
    } else {
        let p = pos + doc_sep(indent, i).len();
        stmt_meta(sts[i], src, indent, ix, p) + doc_meta_from(
            sts,
            src,
            indent,
            ix,
            i + 1,
            p + stmt_text(sts[i], src, indent).len(),
        )
    }
}

/// The whole position map: the statements' entries, then one range covering
/// the whole document.
pub open spec fn doc_meta(a: AstV, ix: int, indent: nat) -> Seq<(Slice, Tag)> {
    doc_meta_from(a.statements, a.src, indent, ix, 0, 0) + seq![
        (Slice(ix as usize, doc_text(a, indent).len() as usize), Tag::Statement),
    ]
}

// ---------------------------------------------------------------------------
// Executable rendering
// ---------------------------------------------------------------------------

/// A string accumulator that prefixes what it is handed with indentation.
struct IndentStr(String);

impl View for IndentStr {
    type V = Seq<char>;

    closed spec fn view(&self) -> Seq<char> {
        self.0@
    }
}

impl IndentStr {
    fn new() -> (r: Self)
        ensures
            r@ == Seq::<char>::empty(),
    {
        IndentStr(String::new())
    }

    /// Appends `indent` spaces, then `str`.
    fn push_str(&mut self, str: &str, indent: usize)
        ensures
            final(self)@ == old(self)@ + spaces(indent as nat) + str@,
    {
        let mut k: usize = 0;
        while k < indent
            invariant
                k <= indent,
                self@ == old(self)@ + spaces(k as nat),
            decreases indent - k,
        {
            let ghost prev = self@;
            self.0.append(" ");
            proof {
                reveal_strlit(" ");
                assert(prev + " "@ =~= old(self)@ + spaces((k + 1) as nat));
            }
            k = k + 1;
        }
        let ghost prev = self@;
        self.0.append(str);
        proof {
            assert(prev + str@ =~= old(self)@ + spaces(indent as nat) + str@);
        }
    }

    /// Appends `str` with no indentation.
    fn append(&mut self, str: &str)
        ensures
            final(self)@ == old(self)@ + str@,
    {
        self.0.append(str);
    }
}

/// The comma-joined, quoted argument list of a call.
fn args_str(ast: &Ast, args: &Vec<Slice>) -> (r: String)
    requires
        ast@.src.len() <= usize::MAX,
        forall|i: int| 0 <= i < args@.len() ==> slice_bounded(#[trigger] args@[i], ast@.src.len()),
    ensures
        r@ == args_text(args@, ast@.src),
{
    let ghost src = ast@.src;
    let mut r = String::new();
    let mut j: usize = 0;
    while j < args.len()
        invariant
            j <= args@.len(),
            ast@.src == src,
            ast@.src.len() <= usize::MAX,
            forall|i: int|
                0 <= i < args@.len() ==> slice_bounded(#[trigger] args@[i], ast@.src.len()),
            r@ + args_text_from(args@, src, j as int) == args_text(args@, src),
        decreases args@.len() - j,
    {
        let ghost prev = r@;
        if j > 0 {
            r.append(",");
        }
        r.append("\"");
        r.append(ast.slice_as_str(&args[j]));
        r.append("\"");
        proof {
            assert(r@ + args_text_from(args@, src, j + 1) =~= prev + args_text_from(
                args@,
                src,
                j as int,
            ));
        }
        j = j + 1;
    }
    r
}

/// One block as a boolean condition expression.
fn cond_block_str(ast: &Ast, block: &Block) -> (r: String)
    requires
        ast@.src.len() <= usize::MAX,
        block_bounded(block@, ast@.src.len()),
    ensures
        r@ == cond_block_text(block@, ast@.src),
{
    let mut r = String::new();
    match block {
        Block::InfoPortion { key, inverted } => {
            if *inverted {
                r.append("not db.actor:has_info");
            } else {
                r.append("db.actor:has_info");
            }
            r.append("(\"");
            r.append(ast.slice_as_str(key));
            r.append("\")\n");
        },
        Block::Call { function, args, inverted } => {
            if *inverted {
                r.append("not ");
            }
            r.append("xr_conditions.");
            r.append(ast.slice_as_str(function));
            r.append("(");
            proof {
                assert forall|i: int| 0 <= i < args@.len() implies slice_bounded(
                    #[trigger] args@[i],
                    ast@.src.len(),
                ) by {
                    assert(block@ matches BlockV::Call { function: f2, args: a2, inverted: i2 }
                        && a2 == args@);
                    assert(block_bounded(block@, ast@.src.len()));
                }
            }
            let a = args_str(ast, args);
            r.append(a.as_str());
            r.append(")\n");
        },
        Block::Chance { val } => {
            r.append("math.random(1, 100) > ");
            r.append(ast.slice_as_str(val));
            r.append("\n");
        },
    }
    proof {
        assert(r@ =~= cond_block_text(block@, ast@.src));
    }
    r
}

/// One block as an effect statement.
fn eff_block_str(ast: &Ast, block: &Block) -> (r: String)
    requires
        ast@.src.len() <= usize::MAX,
        block_bounded(block@, ast@.src.len()),
    ensures
        r@ == eff_block_text(block@, ast@.src),
{
    let mut r = String::new();
    match block {
        Block::InfoPortion { key, inverted } => {
            if *inverted {
                r.append("db.actor:disable_info_portion");
            } else {
                r.append("db.actor:give_info_portion");
            }
            r.append("(\"");
            r.append(ast.slice_as_str(key));
            r.append("\")\n");
        },
        Block::Call { function, args, inverted: _ } => {
            r.append("xr_effects.");
            r.append(ast.slice_as_str(function));
            r.append("(");
            proof {
                assert forall|i: int| 0 <= i < args@.len() implies slice_bounded(
                    #[trigger] args@[i],
                    ast@.src.len(),
                ) by {
                    assert(block@ matches BlockV::Call { function: f2, args: a2, inverted: i2 }
                        && a2 == args@);
                    assert(block_bounded(block@, ast@.src.len()));
                }
            }
            let a = args_str(ast, args);
            r.append(a.as_str());
            r.append(")\n");
        },
        Block::Chance { val } => {
            r.append("math.random(1, 100) > ");
            r.append(ast.slice_as_str(val));
            r.append("\n");
        },
    }
    proof {
        assert(r@ =~= eff_block_text(block@, ast@.src));
    }
    r
}

impl Effect {
    /// Renders the effect blocks, one indented line each, and the map
    /// entries for each line, based at output position `ix`.
    pub fn to_lua(&self, ast: &Ast, ix: usize, indent: usize) -> (r: (String, Metadata))
        requires
            ast@.src.len() <= usize::MAX,
            blocks_bounded(self@, ast@.src.len()),
            ix + eff_text(self@, ast@.src, indent as nat).len() <= usize::MAX,
        ensures
            r.0@ == eff_text(self@, ast@.src, indent as nat),
            r.1@ == eff_meta_from(self@, ast@.src, indent as nat, 0, ix as int),
    {
        let ghost src = ast@.src;
        let ghost ind = indent as nat;
        let ghost full = eff_text(self@, src, ind);
        let blocks = self.blocks();
        let mut out = IndentStr::new();
        let mut meta = Metadata(Vec::new());
        let mut pos: usize = 0;
        let mut j: usize = 0;
        while j < blocks.len()
            invariant
                view_blocks(blocks@) == self@,
                ast@.src == src,
                ast@.src.len() <= usize::MAX,
                blocks_bounded(self@, src.len()),
                ind == indent as nat,
                ix + full.len() <= usize::MAX,
                full == eff_text(self@, src, ind),
                j <= blocks@.len(),
                pos as int == out@.len(),
                out@ + eff_text_from(self@, src, ind, j as int) == full,
                meta@ + eff_meta_from(self@, src, ind, j as int, ix + pos) == eff_meta_from(
                    self@,
                    src,
                    ind,
                    0,
                    ix as int,
                ),
            decreases blocks@.len() - j,
        {
            let ghost prev_out = out@;
            let ghost prev_meta = meta@;
            let ghost prev_pos = pos as int;
            let b = vstd::slice::slice_index_get(blocks, j);
            proof {
                assert(self@[j as int] == b@);
                assert(block_bounded(b@, src.len()));
            }
            let piece = eff_block_str(ast, b);
            let plen = piece.as_str().unicode_len();
            proof {
                assert(eff_text_from(self@, src, ind, j as int) == spaces(ind) + eff_block_text(
                    b@,
                    src,
                ) + eff_text_from(self@, src, ind, j as int + 1));
                assert(prev_out.len() + (ind + plen + eff_text_from(
                    self@,
                    src,
                    ind,
                    j as int + 1,
                ).len()) == full.len());
            }
            meta.0.push((Slice::new(ix + pos, plen), Tag::Effect));
            out.push_str(piece.as_str(), indent);
            pos = pos + indent + plen;
            proof {
                assert(out@ + eff_text_from(self@, src, ind, j as int + 1) =~= prev_out
                    + eff_text_from(self@, src, ind, j as int));
                assert(meta@ + eff_meta_from(self@, src, ind, j as int + 1, ix + pos) =~= prev_meta
                    + eff_meta_from(self@, src, ind, j as int, ix + prev_pos));
            }
            j = j + 1;
        }
        (out.0, meta)
    }
}

impl Condition {
    /// Renders the condition blocks joined by `and`, and the map entries for
    /// each block expression, based at output position `ix`.
    pub fn to_lua(&self, ast: &Ast, ix: usize, indent: usize) -> (r: (String, Metadata))
        requires
            ast@.src.len() <= usize::MAX,
            blocks_bounded(self@, ast@.src.len()),
            indent + 8 <= usize::MAX,
            ix + cond_text(self@, ast@.src, indent as nat).len() <= usize::MAX,
        ensures
            r.0@ == cond_text(self@, ast@.src, indent as nat),
            r.1@ == cond_meta_from(self@, ast@.src, indent as nat, 0, ix as int),
    {
        let ghost src = ast@.src;
        let ghost ind = indent as nat;
        let ghost full = cond_text(self@, src, ind);
        let blocks = self.blocks();
        let mut out = IndentStr::new();
        let mut meta = Metadata(Vec::new());
        let mut pos: usize = 0;
        let mut j: usize = 0;
        while j < blocks.len()
            invariant
                view_blocks(blocks@) == self@,
                ast@.src == src,
                ast@.src.len() <= usize::MAX,
                blocks_bounded(self@, src.len()),
                ind == indent as nat,
                indent + 8 <= usize::MAX,
                ix + full.len() <= usize::MAX,
                full == cond_text(self@, src, ind),
                j <= blocks@.len(),
                pos as int == out@.len(),
                out@ + cond_text_from(self@, src, ind, j as int) == full,
                meta@ + cond_meta_from(self@, src, ind, j as int, ix + pos) == cond_meta_from(
                    self@,
                    src,
                    ind,
                    0,
                    ix as int,
                ),
            decreases blocks@.len() - j,
        {
            let ghost prev_out = out@;
            let ghost prev_meta = meta@;
            let ghost prev_pos = pos as int;
            let b = vstd::slice::slice_index_get(blocks, j);
            proof {
                assert(self@[j as int] == b@);
                assert(block_bounded(b@, src.len()));
                reveal_strlit("and ");
                assert(cond_text_from(self@, src, ind, j as int) == (if j == 0 {
                    Seq::<char>::empty()
                } else {
                    spaces(ind + 8) + "and "@
                }) + cond_block_text(b@, src) + cond_text_from(self@, src, ind, j as int + 1));
            }
            if j > 0 {
                out.push_str("and ", indent + 8);
                pos = pos + (indent + 8) + 4;
                proof {
                    assert(pos as int == out@.len());
                }
            }
            let piece = cond_block_str(ast, b);
            let plen = piece.as_str().unicode_len();
            proof {
                assert(prev_out.len() + cond_text_from(self@, src, ind, j as int).len()
                    == full.len());
            }
            meta.0.push((Slice::new(ix + pos, plen), Tag::Condition));
            out.append(piece.as_str());
            pos = pos + plen;
            proof {
                assert(out@ + cond_text_from(self@, src, ind, j as int + 1) =~= prev_out
                    + cond_text_from(self@, src, ind, j as int));
                assert(meta@ + cond_meta_from(self@, src, ind, j as int + 1, ix + pos) =~= prev_meta
                    + cond_meta_from(self@, src, ind, j as int, ix + prev_pos));
            }
            j = j + 1;
        }
        (out.0, meta)
    }
}

impl<'a> Ast<'a> {
    /// The `return` line of one statement: its quoted output text, or `nil`.
    fn ret_str(&self, stmt: &Statement) -> (r: String)
        requires
            self@.src.len() <= usize::MAX,
            stmt_bounded(stmt@, self@.src.len()),
        ensures
            r@ == ret_text(stmt@, self@.src),
    {
        let mut lua_val = String::new();
        lua_val.append("return ");
        match stmt.val() {
            Some(xsl) => {
                proof {
                    assert(stmt@.out matches Some(s0) && s0 == *xsl);
                }
                lua_val.append("\"");
                lua_val.append(self.slice_as_str(xsl));
                lua_val.append("\"");
            },
            None => {
                lua_val.append("nil");
            },
        }
        proof {
            assert(lua_val@ =~= ret_text(stmt@, self@.src));
        }
        lua_val
    }

    /// Renders one statement standing at output position `pos`, and its map
    /// entries, based at `ix`.
    #[verifier::rlimit(50)]
    fn stmt_to_lua(&self, stmt: &Statement, ix: usize, indent: usize, pos: usize) -> (r: (
        String,
        Metadata,
    ))
        requires
            self@.src.len() <= usize::MAX,
            stmt_bounded(stmt@, self@.src.len()),
            indent + 8 <= usize::MAX,
            ix + 3 + pos + stmt_text(stmt@, self@.src, indent as nat).len() <= usize::MAX,
        ensures
            r.0@ == stmt_text(stmt@, self@.src, indent as nat),
            r.1@ == stmt_meta(stmt@, self@.src, indent as nat, ix as int, pos as int),
    {
        let ghost src = self@.src;
        let ghost ind = indent as nat;
        let ghost stv = stmt@;
        let ghost ch = cond_header(stv, src, ind);
        let ghost ep = eff_part(stv, src, ind);
        let ghost rt = ret_text(stv, src);
        let ghost en = end_part(stv, ind);
        proof {
            reveal_strlit("if ");
            reveal_strlit("then\n");
            reveal_strlit("\nend\n");
            assert(stmt_text(stv, src, ind) == ch + ep + spaces(ind + nest_of(stv)) + rt + en);
        }
        let mut out = IndentStr::new();
        let mut meta = Metadata(Vec::new());
        let mut q: usize = 0;
        // Condition header.
        let conds = stmt.conditions();
        let has_conds = match conds {
            Some(x) => x.blocks().len() > 0,
            None => false,
        };
        proof {
            assert(has_conds == stmt_has_conds(stv));
        }
        if let Some(x) = conds {
            if x.blocks().len() > 0 {
                let ghost ct = cond_text(stv.condition->Some_0, src, ind);
                proof {
                    assert(x@ == stv.condition->Some_0);
                    assert(blocks_bounded(x@, src.len()));
                    assert(ch == spaces(ind) + "if "@ + spaces(ind) + ct + spaces(ind)
                        + "then\n"@);
                }
                let u = ix + 3 + pos;
                let (lua_val, m) = x.to_lua(self, u, indent);
                let ctl = lua_val.as_str().unicode_len();
                let mut lua_conds = IndentStr::new();
                lua_conds.append("if ");
                lua_conds.push_str(lua_val.as_str(), indent);
                lua_conds.push_str("then\n", indent);
                let mut mm = m;
                meta.0.append(&mut mm.0);
                out.push_str(lua_conds.0.as_str(), indent);
                q = q + indent + 3;
                q = q + indent + ctl;
                q = q + indent + 5;
                proof {
                    assert(lua_conds@ =~= "if "@ + spaces(ind) + lua_val@ + spaces(ind)
                        + "then\n"@);
                    assert(out@ =~= ch);
                    assert(q as int == out@.len());
                }
            }
        }
        let ghost centries = if stmt_has_conds(stv) {
            cond_meta_from(stv.condition->Some_0, src, ind, 0, ix as int + 3 + pos as int)
        } else {
            Seq::<(Slice, Tag)>::empty()
        };
        proof {
            assert(out@ =~= ch);
            assert(meta@ =~= centries);
            assert(q as int == ch.len());
        }
        // Effects.
        if let Some(e) = stmt.effects() {
            let ghost et = eff_text(e@, src, ind + nest_of(stv));
            proof {
                assert(e@ == stv.effects->Some_0);
                assert(blocks_bounded(e@, src.len()));
                assert(ep == spaces(ind) + et);
            }
            let u2 = ix + pos + q;
            let nindent = if has_conds {
                indent + 4
            } else {
                indent
            };
            proof {
                assert(nindent as nat == ind + nest_of(stv));
            }
            let (lua_val, m) = e.to_lua(self, u2, nindent);
            let el = lua_val.as_str().unicode_len();
            let mut mm = m;
            meta.0.append(&mut mm.0);
            meta.0.push((Slice::new(pos + q, el), Tag::Effects));
            out.push_str(lua_val.as_str(), indent);
            q = q + indent + el;
        }
        let ghost eentries = match stv.effects {
            Some(e) => eff_meta_from(e, src, ind + nest_of(stv), 0, ix as int + pos as int
                + ch.len()) + seq![
                (
                    Slice(
                        (pos as int + ch.len()) as usize,
                        eff_text(e, src, ind + nest_of(stv)).len() as usize,
                    ),
                    Tag::Effects,
                ),
            ],
            None => Seq::<(Slice, Tag)>::empty(),
        };
        proof {
            assert(out@ =~= ch + ep);
            assert(meta@ =~= centries + eentries);
            assert(q as int == ch.len() + ep.len());
        }
        // Return line, one nesting level deeper under a condition.
        let lua_val = self.ret_str(stmt);
        let rl = lua_val.as_str().unicode_len();
        meta.0.push((Slice::new(pos + q, rl), Tag::Output));
        let nindent2 = if has_conds {
            indent + 4
        } else {
            indent
        };
        out.push_str(lua_val.as_str(), nindent2);
        if has_conds {
            out.push_str("\nend\n", indent);
        }
        proof {
            assert(out@ =~= stmt_text(stv, src, ind));
            assert(meta@ =~= stmt_meta(stv, src, ind, ix as int, pos as int));
        }
        (out.0, meta)
    }

    /// Lowers the whole document: one guarded or plain `return` unit per
    /// statement, a blank line between statements, and the position map of
    /// everything emitted, based at output position `ix`.
    ///
    /// Generation is a pure function of the document and the two offsets:
    /// two calls on equal documents return character-identical text and
    /// identical maps.
    pub fn to_lua(&self, _ast: &Ast, ix: usize, indent: usize) -> (r: (String, Metadata))
        requires
            ast_wf(self@),
            indent + 8 <= usize::MAX,
            ix + doc_text(self@, indent as nat).len() + 3 <= usize::MAX,
        ensures
            r.0@ == doc_text(self@, indent as nat),
            r.1@ == doc_meta(self@, ix as int, indent as nat),
    {
        let ghost src = self@.src;
        let ghost ind = indent as nat;
        let ghost full = doc_text(self@, ind);
        let sts = self.statements();
        let mut out = IndentStr::new();
        let mut meta = Metadata(Vec::new());
        let mut pos: usize = 0;
        let mut i: usize = 0;
        while i < sts.len()
            invariant
                view_stmts(sts@) == self@.statements,
                ast_wf(self@),
                src == self@.src,
                ind == indent as nat,
                indent + 8 <= usize::MAX,
                ix + full.len() + 3 <= usize::MAX,
                full == doc_text(self@, ind),
                i <= sts@.len(),
                pos as int == out@.len(),
                out@ + doc_text_from(self@.statements, src, ind, i as int) == full,
                meta@ + doc_meta_from(self@.statements, src, ind, ix as int, i as int, pos as int)
                    == doc_meta_from(self@.statements, src, ind, ix as int, 0, 0),
            decreases sts@.len() - i,
        {
            let ghost prev_out = out@;
            let ghost prev_meta = meta@;
            let ghost prev_pos = pos as int;
            let stmt = vstd::slice::slice_index_get(sts, i);
            let ghost stv = stmt@;
            let ghost rest1 = doc_text_from(self@.statements, src, ind, i as int + 1);
            proof {
                assert(self@.statements[i as int] == stv);
                assert(stmt_bounded(stv, src.len()));
                reveal_strlit("\n");
                assert(doc_text_from(self@.statements, src, ind, i as int) == doc_sep(
                    ind,
                    i as int,
                ) + stmt_text(stv, src, ind) + rest1);
            }
            if i > 0 {
                out.push_str("\n", indent);
                pos = pos + indent + 1;
            }
            let ghost sep = doc_sep(ind, i as int);
            let ghost stt = stmt_text(stv, src, ind);
            proof {
                assert(out@ == prev_out + sep);
                vstd::seq_lib::lemma_concat_associative(prev_out, sep, stt);
                vstd::seq_lib::lemma_concat_associative(prev_out, sep + stt, rest1);
                vstd::seq_lib::lemma_concat_associative(prev_out + sep, stt, rest1);
                assert((out@ + stt) + rest1 == full);
            }
            let (text, m) = self.stmt_to_lua(stmt, ix, indent, pos);
            let tl = text.as_str().unicode_len();
            let mut mm = m;
            meta.0.append(&mut mm.0);
            out.append(text.as_str());
            let ghost sep_pos = prev_pos + sep.len();
            pos = pos + tl;
            proof {
                assert(out@ + rest1 == full);
                let ghost sts_v = self@.statements;
                let ghost sm = stmt_meta(stv, src, ind, ix as int, sep_pos);
                let ghost mrest = doc_meta_from(sts_v, src, ind, ix as int, i as int + 1, pos as int);
                assert(doc_meta_from(sts_v, src, ind, ix as int, i as int, prev_pos) == sm
                    + mrest);
                assert(meta@ == prev_meta + sm);
                vstd::seq_lib::lemma_concat_associative(prev_meta, sm, mrest);
                assert(meta@ + mrest == prev_meta + doc_meta_from(
                    sts_v,
                    src,
                    ind,
                    ix as int,
                    i as int,
                    prev_pos,
                ));
            }
            i = i + 1;
        }
        proof {
            assert(out@ == full);
        }
        meta.0.push((Slice::new(ix, pos), Tag::Statement));
        proof {
            assert(meta@ =~= doc_meta(self@, ix as int, ind));
        }
        (out.0, meta)
    }
}

// ---------------------------------------------------------------------------
// Law: nesting indentation
// ---------------------------------------------------------------------------

/// A statement with a non-empty condition opens with an `if .. then` header,
/// renders its effect lines and its `return` line one nesting level (four
/// spaces) deeper, and closes with an `end` marker line; a statement without
/// one renders its effect lines and `return` line at the base level and
/// emits neither the header nor the closer.
pub proof fn lemma_nesting_indentation(st: StatementV, src: Seq<char>, indent: nat)
    ensures
        stmt_has_conds(st) ==> stmt_text(st, src, indent) == spaces(indent) + "if "@ + spaces(
            indent,
        ) + cond_text(st.condition->Some_0, src, indent) + spaces(indent) + "then\n"@ + eff_part(
            st,
            src,
            indent,
        ) + spaces(indent + 4) + ret_text(st, src) + spaces(indent) + "\nend\n"@,
        stmt_has_conds(st) ==> (match st.effects {
            Some(e) => eff_part(st, src, indent) == spaces(indent) + eff_text(
                e,
                src,
                indent + 4,
            ),
            None => true,
        }),
        !stmt_has_conds(st) ==> stmt_text(st, src, indent) == eff_part(st, src, indent) + spaces(
            indent,
        ) + ret_text(st, src),
        !stmt_has_conds(st) ==> (match st.effects {
            Some(e) => eff_part(st, src, indent) == spaces(indent) + eff_text(e, src, indent),
            None => true,
        }),
{
    if stmt_has_conds(st) {
        assert(stmt_text(st, src, indent) =~= spaces(indent) + "if "@ + spaces(indent)
            + cond_text(st.condition->Some_0, src, indent) + spaces(indent) + "then\n"@
            + eff_part(st, src, indent) + spaces(indent + 4) + ret_text(st, src) + spaces(indent)
            + "\nend\n"@);
    } else {
        assert(stmt_text(st, src, indent) =~= eff_part(st, src, indent) + spaces(indent)
            + ret_text(st, src));
    }
}

} // verus!
