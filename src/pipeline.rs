use vstd::prelude::*;
use crate::ast::{stmts_agree, Parser, Statement};
use crate::block_tree::{collect_from, lemma_collect_lengths, pairs_model, tree_spec, BlockTree, ChunkModel};
use crate::error::CompileError;
use crate::grammar::parse_tokens;
use crate::text::{lemma_lines_from_bounds, lines_of};
use crate::token::Token;
use crate::tokenizer::{flat_ok, flatten_tree, lemma_tree_fits, tokenize_chunks, Tokenizer};

verus! {

/// The block tree of `source` with its texts tokenized, or the first error
/// of segmentation or scanning.
pub open spec fn tokenized_source(source: Seq<char>) -> Result<Seq<ChunkModel>, CompileError> {
    match collect_from(lines_of(source), 0, None) {
        Err(e) => Err(e),
        Ok((ind, _)) => match tree_spec(ind, 0) {
            Err(e) => Err(e),
            Ok(tree) => tokenize_chunks(tree),
        },
    }
}

/// The whole front end: segments `source` by indentation, scans each line,
/// flattens nested blocks into block tokens and parses the token stream.
pub fn parse_source(source: &str) -> (r: Result<Vec<Statement>, CompileError>)
    requires
        source@.len() < u32::MAX,
    ensures
        match tokenized_source(source@) {
            Err(e) => r == Err::<Vec<Statement>, CompileError>(e),
            Ok(chunks) => exists|ts: Seq<Token>| flat_ok(chunks, ts) && stmts_agree(r, parse_tokens(ts)),
        },
{
    let mut tree = BlockTree::new(source, 0);
    let indents = match tree.collect_indents() {
        Err(e) => {
            return Err(e);
        },
        Ok(v) => v,
    };
    let root = match tree.make_tree(&indents) {
        Err(e) => {
            return Err(e);
        },
        Ok(b) => b,
    };
    proof {
        let ls = lines_of(source@);
        lemma_lines_from_bounds(source@, 0);
        lemma_collect_lengths(ls, 0, None, source@.len() as int);
        let ind = pairs_model(indents@);
        assert forall|k: int| 0 <= k < ind.len() implies (#[trigger] ind[k]).1.len() < u32::MAX by {
            assert(ind[k] == collect_from(ls, 0, None)->Ok_0.0[k]);
        }
        lemma_tree_fits(ind);
    }
    let tokenized = match Tokenizer::tokenize_branch(root) {
        Err(e) => {
            return Err(e);
        },
        Ok(b) => b,
    };
    let flat = flatten_tree(tokenized);
    let mut parser = Parser::from(Tokenizer::from(flat));
    let r = parser.parse();
    assert(flat_ok(tokenize_chunks(tree_spec(pairs_model(indents@), 0)->Ok_0)->Ok_0, parser.tokenizer.tokens@));
    r
}

} // verus!
