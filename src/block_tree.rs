use vstd::prelude::*;
use crate::error::CompileError;
use crate::text::{
    chars_of, lead_ws, lemma_lead_ws, lemma_trail_ws, lines_of, split_lines, string_of, sub_vec, trim, trim_bounds,
    ws_flags,
};
use crate::token::Token;
use crate::tokenizer::{find_char, find_delimiter, lemma_find_char, lexemes, Lexeme};

verus! {

/// What one chunk of a branch holds: a line of text, the tokens scanned from
/// it, or a nested branch.
#[derive(Debug)]
pub enum ChunkValue {
    Text(String),
    Tokens(Vec<Token>),
    Block(Branch),
}

#[derive(Debug)]
pub struct Chunk {
    pub value: ChunkValue,
}

/// The chunks of one indentation level, in source order.
#[derive(Debug)]
pub struct Branch {
    pub content: Vec<Chunk>,
}

/// A chunk as the specifications see it.
pub enum ChunkModel {
    Text(Seq<char>),
    Tokens(Seq<Lexeme>),
    Block(Seq<ChunkModel>),
}

pub open spec fn chunk_model(c: Chunk) -> ChunkModel
    decreases c,
{
    match c.value {
        ChunkValue::Text(t) => ChunkModel::Text(t@),
        ChunkValue::Tokens(v) => ChunkModel::Tokens(lexemes(v@)),
        ChunkValue::Block(b) => ChunkModel::Block(chunks_model(b.content@)),
    }
}

pub open spec fn chunks_model(s: Seq<Chunk>) -> Seq<ChunkModel>
    decreases s,
{
    if s.len() == 0 {
        Seq::empty()
    } else {
        chunks_model(s.drop_last()).push(chunk_model(s.last()))
    }
}

impl Chunk {
    pub fn new(value: ChunkValue) -> (r: Chunk)
        ensures
            r.value == value,
    {
        Chunk { value }
    }

    pub fn get_value(&self) -> (r: &ChunkValue)
        ensures
            r == &self.value,
    {
        &self.value
    }
}

impl Branch {
    pub fn new(content: Vec<Chunk>) -> (r: Branch)
        ensures
            r.content == content,
    {
        Branch { content }
    }
}

impl View for Branch {
    type V = Seq<ChunkModel>;

    open spec fn view(&self) -> Seq<ChunkModel> {
        chunks_model(self.content@)
    }
}

/// One past the run of spaces and tabs that starts at `i`.
pub open spec fn indent_end(l: Seq<char>, i: int) -> int
    decreases l.len() - i,
{
    if 0 <= i < l.len() && (l[i] == ' ' || l[i] == '\t') {
        indent_end(l, i + 1)
    } else {
        i
    }
}

pub proof fn lemma_indent_end(l: Seq<char>, i: int)
    requires
        0 <= i <= l.len(),
    ensures
        i <= indent_end(l, i) <= l.len(),
        forall|k: int| i <= k < indent_end(l, i) ==> (#[trigger] l[k] == ' ' || l[k] == '\t'),
    decreases l.len() - i,
{
    if i < l.len() && (l[i] == ' ' || l[i] == '\t') {
        lemma_indent_end(l, i + 1);
    }
}

/// The leading spaces and tabs of a line.
pub open spec fn leading(l: Seq<char>) -> Seq<char> {
    l.subrange(0, indent_end(l, 0))
}

/// What a line holds once a comment is cut off and white space trimmed.
pub open spec fn line_content(l: Seq<char>) -> Seq<char> {
    trim(l.subrange(0, find_char(l, 0, '#')))
}

/// Whether the indentation `w` keeps to the indent method `m`; with no
/// method yet, `w` must use one character throughout.
pub open spec fn method_ok(m: Option<char>, w: Seq<char>) -> bool {
    match m {
        Some(c) => forall|i: int| 0 <= i < w.len() ==> #[trigger] w[i] == c,
        None => forall|i: int| 0 <= i < w.len() ==> #[trigger] w[i] == w[0],
    }
}

/// The indent method after the indentation `w`: the first indenting
/// character fixes it.
pub open spec fn method_next(m: Option<char>, w: Seq<char>) -> Option<char> {
    match m {
        Some(c) => Some(c),
        None => if w.len() > 0 {
            Some(w[0])
        } else {
            None
        },
    }
}

/// The (indent width, content) pairs of the lines `ls` from index `k` on that
/// hold something, and the indent method after them, starting with method `m`.
pub open spec fn collect_from(ls: Seq<Seq<char>>, k: int, m: Option<char>) -> Result<
    (Seq<(int, Seq<char>)>, Option<char>),
    CompileError,
>
    decreases ls.len() - k,
{
    if k < 0 || k >= ls.len() {
        Ok((Seq::empty(), m))
    } else {
        let l = ls[k];
        let content = line_content(l);
        if content.len() == 0 {
            collect_from(ls, k + 1, m)
        } else {
            let w = leading(l);
            if !method_ok(m, w) {
                Err(CompileError::IndentationError { line: k as usize })
            } else {
                match collect_from(ls, k + 1, method_next(m, w)) {
                    Err(e) => Err(e),
                    Ok((s, m2)) => Ok((seq![(w.len() as int, content)] + s, m2)),
                }
            }
        }
    }
}

pub open spec fn pairs_model(v: Seq<(usize, String)>) -> Seq<(int, Seq<char>)> {
    v.map_values(|p: (usize, String)| (p.0 as int, p.1@))
}

/// Splits source text into an indentation tree.
#[derive(Debug)]
pub struct BlockTree {
    pub source: String,
    /// The index, among the collected lines, where `make_tree` starts; after
    /// it, one past the last line it took.
    pub line: usize,
    /// The indent character, once a line has fixed it.
    pub method: Option<char>,
}

impl BlockTree {
    pub fn new(source: &str, line: usize) -> (r: BlockTree)
        ensures
            r.source@ == source@,
            r.line == line,
            r.method is None,
    {
        BlockTree { source: String::from_str(source), line, method: None }
    }

    /// Measures the leading spaces and tabs of `l`, holding them to the indent
    /// method; `None` if a character breaks it.
    fn measure(&mut self, l: &Vec<char>) -> (r: Option<usize>)
        ensures
            final(self).source == old(self).source,
            final(self).line == old(self).line,
            method_ok(old(self).method, leading(l@)) ==> r == Some(leading(l@).len() as usize)
                && final(self).method == method_next(old(self).method, leading(l@)),
            !method_ok(old(self).method, leading(l@)) ==> r is None,
    {
        proof {
            lemma_indent_end(l@, 0);
        }
        let mut pos: usize = 0;
        let ghost m0 = self.method;
        while pos < l.len() && (l[pos] == ' ' || l[pos] == '\t')
            invariant
                pos <= indent_end(l@, 0) <= l.len(),
                indent_end(l@, pos as int) == indent_end(l@, 0),
                forall|i: int| 0 <= i < pos ==> (l@[i] == ' ' || l@[i] == '\t'),
                method_ok(m0, l@.subrange(0, pos as int)),
                self.method == method_next(m0, l@.subrange(0, pos as int)),
                self.source == old(self).source,
                self.line == old(self).line,
                m0 == old(self).method,
            decreases l.len() - pos,
        {
            let c = l[pos];
            proof {
                lemma_indent_end(l@, pos + 1);
            }
            match self.method {
                Some(m) => {
                    if m != c {
                        proof {
                            let w = leading(l@);
                            assert(w[pos as int] == c);
                            if m0 is None {
                                assert(w[0] == l@.subrange(0, pos as int)[0]);
                            }
                        }
                        return None;
                    }
                },
                None => {
                    self.method = Some(c);
                },
            }
            proof {
                let w2 = l@.subrange(0, pos + 1);
                assert(w2 =~= l@.subrange(0, pos as int).push(c));
                if m0 is None && pos > 0 {
                    assert(w2[0] == l@.subrange(0, pos as int)[0]);
                }
            }
            pos = pos + 1;
        }
        assert(l@.subrange(0, pos as int) =~= leading(l@));
        Some(pos)
    }

    /// Measures the indentation of `line`, holding it to the indent method of
    /// this run; `None` if the line breaks it.
    pub fn get_indent(&mut self, line: &str) -> (r: Option<usize>)
        ensures
            final(self).source == old(self).source,
            final(self).line == old(self).line,
            method_ok(old(self).method, leading(line@)) ==> r == Some(leading(line@).len() as usize)
                && final(self).method == method_next(old(self).method, leading(line@)),
            !method_ok(old(self).method, leading(line@)) ==> r is None,
    {
        let l = chars_of(line);
        self.measure(&l)
    }
    /// The (indent width, content) pair of each line of the source that holds
    /// something once its comment is cut off and it is trimmed, in order.
    /// Fails with `IndentationError` at the first line that breaks the indent
    /// method.
    pub fn collect_indents(&mut self) -> (r: Result<Vec<(usize, String)>, CompileError>)
        ensures
            final(self).source == old(self).source,
            final(self).line == old(self).line,
            match collect_from(lines_of(old(self).source@), 0, old(self).method) {
                Ok((s, m)) => r matches Ok(v) && pairs_model(v@) == s && final(self).method == m,
                Err(e) => r == Err::<Vec<(usize, String)>, CompileError>(e),
            },
    {
        let chars = chars_of(self.source.as_str());
        let ls = split_lines(&chars);
        let ghost all = lines_of(self.source@);
        let ghost m0 = self.method;
        let mut out: Vec<(usize, String)> = Vec::new();
        let mut k: usize = 0;
        proof {
            match collect_from(all, 0, m0) {
                Ok((s, m)) => {
                    assert(pairs_model(out@) + s =~= s);
                },
                Err(_) => {},
            }
        }
        while k < ls.len()
            invariant
                ls@.len() == all.len(),
                forall|i: int| 0 <= i < ls@.len() ==> (#[trigger] ls@[i])@ == all[i],
                k <= ls.len(),
                self.source == old(self).source,
                self.line == old(self).line,
                all == lines_of(old(self).source@),
                m0 == old(self).method,
                match collect_from(all, 0, m0) {
                    Ok((s, m)) => match collect_from(all, k as int, self.method) {
                        Ok((t, m2)) => s == pairs_model(out@) + t && m == m2,
                        Err(_) => false,
                    },
                    Err(e) => collect_from(all, k as int, self.method) == Err::<
                        (Seq<(int, Seq<char>)>, Option<char>),
                        CompileError,
                    >(e),
                },
            decreases ls.len() - k,
        {
            let l = &ls[k];
            assert(l@ == all[k as int]);
            proof {
                lemma_find_char(l@, 0, '#');
            }
            let h = find_delimiter(l, 0, '#');
            let part = sub_vec(l, 0, h);
            assert(line_content(l@) == trim(part@));
            match trim_bounds(&part) {
                None => {
                    assert(collect_from(all, k as int, self.method) == collect_from(all, k + 1, self.method));
                },
                Some((a, b)) => {
                    let ghost before = self.method;
                    let content = string_of(&part, a, b);
                    assert(content@ == line_content(all[k as int]));
                    assert(content@.len() > 0);
                    match self.measure(l) {
                        None => {
                            return Err(CompileError::IndentationError { line: k });
                        },
                        Some(width) => {
                            proof {
                                lemma_indent_end(l@, 0);
                            }
                            assert(width as int == leading(l@).len());
                            assert(method_ok(before, leading(l@)));
                            assert(collect_from(all, k as int, before) == match collect_from(
                                all,
                                k + 1,
                                method_next(before, leading(all[k as int])),
                            ) {
                                Err(e) => Err(e),
                                Ok((s, m2)) => Ok((seq![(width as int, content@)] + s, m2)),
                            });
                            let ghost old_out = out@;
                            out.push((width, content));
                            proof {
                                assert(pairs_model(out@) =~= pairs_model(old_out).push(
                                    (width as int, content@),
                                ));
                                match collect_from(all, 0, m0) {
                                    Ok((s, m)) => {
                                        let t = collect_from(all, k + 1, self.method)->Ok_0.0;
                                        assert(pairs_model(old_out) + (seq![(width as int, content@)] + t)
                                            =~= pairs_model(out@) + t);
                                    },
                                    Err(_) => {},
                                }
                            }
                        },
                    }
                },
            }
            k = k + 1;
        }
        proof {
            match collect_from(all, 0, m0) {
                Ok((s, m)) => {
                    assert(pairs_model(out@) + Seq::empty() =~= pairs_model(out@));
                },
                Err(_) => {},
            }
        }
        Ok(out)
    }
}

/// `prefix` in front of the chunks of a successful build; an error stays as
/// it is.
pub open spec fn glue_chunks(prefix: Seq<ChunkModel>, r: Result<(Seq<ChunkModel>, int), CompileError>) -> Result<
    (Seq<ChunkModel>, int),
    CompileError,
> {
    match r {
        Ok((c, j)) => Ok((prefix + c, j)),
        Err(e) => Err(e),
    }
}

/// The chunks of the level whose indent width is `base`, built from line
/// `i` of `ind` on, and the index of the line where the level ends: the first
/// line indented less than `base`, or the end. A line indented more than
/// `base` opens a nested level, which holds it and the lines after it that
/// are indented more than `base`; the line that ends a nested level must be
/// indented exactly `base` or less, else it is a `DedentError`.
pub open spec fn level(ind: Seq<(int, Seq<char>)>, i: int, base: int) -> Result<
    (Seq<ChunkModel>, int),
    CompileError,
>
    decreases ind.len() - i,
{
    if i < 0 || i >= ind.len() {
        Ok((Seq::empty(), i))
    } else {
        let w = ind[i].0;
        let text = ChunkModel::Text(ind[i].1);
        if w < base {
            Ok((Seq::empty(), i))
        } else if w == base {
            glue_chunks(seq![text], level(ind, i + 1, base))
        } else {
            match level(ind, i + 1, w) {
                Err(e) => Err(e),
                Ok((sub, j0)) => {
                    let j = if i < j0 <= ind.len() {
                        j0
                    } else {
                        i + 1
                    };
                    if j < ind.len() && ind[j].0 > base {
                        Err(CompileError::DedentError { line: j as usize })
                    } else {
                        glue_chunks(seq![ChunkModel::Block(seq![text] + sub)], level(ind, j, base))
                    }
                },
            }
        }
    }
}

/// The tree built from line `start` of `ind`: the level of that line's
/// width, which must take every line after it.
pub open spec fn tree_spec(ind: Seq<(int, Seq<char>)>, start: int) -> Result<Seq<ChunkModel>, CompileError> {
    if start < 0 || start >= ind.len() {
        Ok(Seq::empty())
    } else {
        match level(ind, start, ind[start].0) {
            Err(e) => Err(e),
            Ok((c, j)) => if j < ind.len() {
                Err(CompileError::DedentError { line: j as usize })
            } else {
                Ok(c)
            },
        }
    }
}

pub proof fn lemma_chunks_model_push(s: Seq<Chunk>, c: Chunk)
    ensures
        chunks_model(s.push(c)) == chunks_model(s).push(chunk_model(c)),
{
    assert(s.push(c).drop_last() =~= s);
}

pub proof fn lemma_chunks_model_len(s: Seq<Chunk>)
    ensures
        chunks_model(s).len() == s.len(),
        forall|i: int| 0 <= i < s.len() ==> chunks_model(s)[i] == chunk_model(#[trigger] s[i]),
    decreases s.len(),
{
    if s.len() > 0 {
        lemma_chunks_model_len(s.drop_last());
        assert forall|i: int| 0 <= i < s.len() implies chunks_model(s)[i] == chunk_model(#[trigger] s[i]) by {
            if i < s.len() - 1 {
                assert(s.drop_last()[i] == s[i]);
            }
        }
    }
}

pub proof fn lemma_chunks_model_append(a: Seq<Chunk>, b: Seq<Chunk>)
    ensures
        chunks_model(a + b) == chunks_model(a) + chunks_model(b),
    decreases b.len(),
{
    if b.len() == 0 {
        assert(a + b =~= a);
        assert(chunks_model(a) + chunks_model(b) =~= chunks_model(a));
    } else {
        lemma_chunks_model_append(a, b.drop_last());
        assert((a + b).drop_last() =~= a + b.drop_last());
        assert((a + b).last() == b.last());
        assert(chunks_model(a) + chunks_model(b) =~= (chunks_model(a) + chunks_model(b.drop_last())).push(
            chunk_model(b.last()),
        ));
    }
}

/// Builds the level of width `base` from line `i` on; see `level`.
fn build_level(ind: &Vec<(usize, String)>, i: usize, base: usize) -> (r: Result<
    (Vec<Chunk>, usize),
    CompileError,
>)
    requires
        i <= ind.len(),
    ensures
        match level(pairs_model(ind@), i as int, base as int) {
            Ok((c, j)) => r matches Ok((v, k)) && chunks_model(v@) == c && k == j && i <= k
                <= ind.len(),
            Err(e) => r == Err::<(Vec<Chunk>, usize), CompileError>(e),
        },
    decreases ind.len() - i,
{
    let mut chunks: Vec<Chunk> = Vec::new();
    let mut p = i;
    proof {
        match level(pairs_model(ind@), i as int, base as int) {
            Ok((c, j)) => {
                assert(chunks_model(chunks@) + c =~= c);
            },
            Err(_) => {},
        }
    }
    while p < ind.len()
        invariant
            i <= p <= ind.len(),
            level(pairs_model(ind@), i as int, base as int) == glue_chunks(
                chunks_model(chunks@),
                level(pairs_model(ind@), p as int, base as int),
            ),
        decreases ind.len() - p,
    {
        let w = ind[p].0;
        let ghost old_chunks = chunks@;
        if w < base {
            proof {
                match level(pairs_model(ind@), i as int, base as int) {
                    Ok((c, j)) => {
                        assert(chunks_model(chunks@) + Seq::empty() =~= chunks_model(chunks@));
                    },
                    Err(_) => {},
                }
            }
            return Ok((chunks, p));
        }
        let text = Chunk { value: ChunkValue::Text(ind[p].1.clone()) };
        if w == base {
            proof {
                lemma_chunks_model_push(old_chunks, text);
                match level(pairs_model(ind@), p + 1, base as int) {
                    Ok((c, j)) => {
                        assert(chunks_model(old_chunks) + (seq![chunk_model(text)] + c) =~= chunks_model(
                            old_chunks.push(text),
                        ) + c);
                    },
                    Err(_) => {},
                }
            }
            chunks.push(text);
            p = p + 1;
        } else {
            let (mut sub, j0) = match build_level(ind, p + 1, w) {
                Err(e) => {
                    return Err(e);
                },
                Ok(x) => x,
            };
            let j = if j0 > p {
                j0
            } else {
                p + 1
            };
            if j < ind.len() && ind[j].0 > base {
                return Err(CompileError::DedentError { line: j });
            }
            let mut inner: Vec<Chunk> = Vec::new();
            inner.push(text);
            let ghost sub_seq = sub@;
            let ghost first = inner@;
            inner.append(&mut sub);
            proof {
                lemma_chunks_model_append(first, sub_seq);
                assert(first =~= seq![text]);
                lemma_chunks_model_push(Seq::<Chunk>::empty(), text);
                assert(Seq::<Chunk>::empty().push(text) =~= seq![text]);
                assert(chunks_model(Seq::<Chunk>::empty()) =~= Seq::<ChunkModel>::empty());
                assert(chunks_model(seq![text]) =~= seq![chunk_model(text)]);
            }
            let block = Chunk { value: ChunkValue::Block(Branch { content: inner }) };
            proof {
                lemma_chunks_model_push(old_chunks, block);
                match level(pairs_model(ind@), j as int, base as int) {
                    Ok((c, k)) => {
                        assert(chunks_model(old_chunks) + (seq![chunk_model(block)] + c) =~= chunks_model(
                            old_chunks.push(block),
                        ) + c);
                    },
                    Err(_) => {},
                }
            }
            chunks.push(block);
            p = j;
        }
    }
    proof {
        match level(pairs_model(ind@), i as int, base as int) {
            Ok((c, j)) => {
                assert(chunks_model(chunks@) + Seq::empty() =~= chunks_model(chunks@));
            },
            Err(_) => {},
        }
    }
    Ok((chunks, p))
}

impl BlockTree {
    /// Builds the indentation tree of `indents` from line `self.line` on, and
    /// leaves `self.line` one past the last line. Every later line must be
    /// indented at least as far as that first line, and each dedent must come
    /// back to the width of an enclosing level; else `DedentError`.
    pub fn make_tree(&mut self, indents: &Vec<(usize, String)>) -> (r: Result<Branch, CompileError>)
        ensures
            final(self).source == old(self).source,
            final(self).method == old(self).method,
            match tree_spec(pairs_model(indents@), old(self).line as int) {
                Ok(c) => r matches Ok(b) && b@ == c,
                Err(e) => r == Err::<Branch, CompileError>(e),
            },
            r is Ok && old(self).line < indents.len() ==> final(self).line == indents.len(),
            old(self).line >= indents.len() ==> final(self).line == old(self).line,
    {
        if self.line >= indents.len() {
            let b = Branch { content: Vec::new() };
            assert(b@ =~= Seq::<ChunkModel>::empty());
            return Ok(b);
        }
        let base = indents[self.line].0;
        match build_level(indents, self.line, base) {
            Err(e) => Err(e),
            Ok((chunks, j)) => {
                if j < indents.len() {
                    return Err(CompileError::DedentError { line: j });
                }
                self.line = j;
                Ok(Branch { content: chunks })
            },
        }
    }
}

/// The texts of the `Text` chunks directly in `cs`, in order.
pub open spec fn top_texts(cs: Seq<ChunkModel>) -> Seq<Seq<char>>
    decreases cs.len(),
{
    if cs.len() == 0 {
        Seq::empty()
    } else {
        match cs.last() {
            ChunkModel::Text(t) => top_texts(cs.drop_last()).push(t),
            _ => top_texts(cs.drop_last()),
        }
    }
}

/// The contents of the lines in `ind[i..j]` indented exactly `w`, in order.
pub open spec fn width_lines(ind: Seq<(int, Seq<char>)>, i: int, j: int, w: int) -> Seq<Seq<char>>
    decreases j - i,
{
    if i >= j {
        Seq::empty()
    } else if ind[j - 1].0 == w {
        width_lines(ind, i, j - 1, w).push(ind[j - 1].1)
    } else {
        width_lines(ind, i, j - 1, w)
    }
}

proof fn lemma_top_texts_append(a: Seq<ChunkModel>, b: Seq<ChunkModel>)
    ensures
        top_texts(a + b) == top_texts(a) + top_texts(b),
    decreases b.len(),
{
    if b.len() == 0 {
        assert(a + b =~= a);
        assert(top_texts(a) + top_texts(b) =~= top_texts(a));
    } else {
        lemma_top_texts_append(a, b.drop_last());
        assert((a + b).drop_last() =~= a + b.drop_last());
        assert((a + b).last() == b.last());
        match b.last() {
            ChunkModel::Text(t) => {
                assert(top_texts(a) + top_texts(b) =~= (top_texts(a) + top_texts(b.drop_last())).push(t));
            },
            _ => {},
        }
    }
}

proof fn lemma_width_lines_split(ind: Seq<(int, Seq<char>)>, i: int, k: int, j: int, w: int)
    requires
        i <= k <= j,
    ensures
        width_lines(ind, i, j, w) == width_lines(ind, i, k, w) + width_lines(ind, k, j, w),
    decreases j - k,
{
    if k < j {
        lemma_width_lines_split(ind, i, k, j - 1, w);
        if ind[j - 1].0 == w {
            assert(width_lines(ind, i, k, w) + width_lines(ind, k, j, w) =~= (width_lines(ind, i, k, w)
                + width_lines(ind, k, j - 1, w)).push(ind[j - 1].1));
        }
    } else {
        assert(width_lines(ind, i, k, w) + width_lines(ind, k, j, w) =~= width_lines(ind, i, k, w));
    }
}

proof fn lemma_width_lines_none(ind: Seq<(int, Seq<char>)>, i: int, j: int, w: int)
    requires
        forall|k: int| i <= k < j ==> (#[trigger] ind[k]).0 > w,
    ensures
        width_lines(ind, i, j, w) == Seq::<Seq<char>>::empty(),
    decreases j - i,
{
    if i < j {
        lemma_width_lines_none(ind, i, j - 1, w);
    }
}

/// A level built from line `i` with width `base` takes the lines `i..j`; all
/// of them are indented at least `base`, and its `Text` chunks hold exactly
/// the lines among them indented `base`, in order.
proof fn lemma_level_texts(ind: Seq<(int, Seq<char>)>, i: int, base: int)
    requires
        0 <= i <= ind.len(),
        level(ind, i, base) is Ok,
    ensures
        ({
            let (c, j) = level(ind, i, base)->Ok_0;
            &&& i <= j <= ind.len()
            &&& forall|k: int| i <= k < j ==> (#[trigger] ind[k]).0 >= base
            &&& top_texts(c) == width_lines(ind, i, j, base)
            &&& j < ind.len() ==> ind[j].0 < base
        }),
    decreases ind.len() - i,
{
    if i < ind.len() {
        let w = ind[i].0;
        let text = ChunkModel::Text(ind[i].1);
        if w == base {
            lemma_level_texts(ind, i + 1, base);
            let (c, j) = level(ind, i + 1, base)->Ok_0;
            lemma_top_texts_append(seq![text], c);
            assert(top_texts(seq![text]) =~= seq![ind[i].1]) by {
                reveal_with_fuel(top_texts, 2);
                assert(seq![text].drop_last() =~= Seq::<ChunkModel>::empty());
            }
            assert forall|k: int| i <= k < j implies (#[trigger] ind[k]).0 >= base by {
                if k > i {
                    assert(ind[k].0 >= base);
                }
            }
            lemma_width_lines_split(ind, i, i + 1, j, base);
            assert(width_lines(ind, i, i, base) =~= Seq::<Seq<char>>::empty());
            assert(width_lines(ind, i, i + 1, base) =~= seq![ind[i].1]);
            assert(level(ind, i, base) == Ok::<(Seq<ChunkModel>, int), CompileError>((seq![text] + c, j)));
        } else if w > base {
            lemma_level_texts(ind, i + 1, w);
            let (sub, j0) = level(ind, i + 1, w)->Ok_0;
            let j = if i < j0 <= ind.len() {
                j0
            } else {
                i + 1
            };
            assert(j == j0);
            lemma_level_texts(ind, j, base);
            let (c, k) = level(ind, j, base)->Ok_0;
            let block = ChunkModel::Block(seq![text] + sub);
            lemma_top_texts_append(seq![block], c);
            assert(top_texts(seq![block]) =~= Seq::<Seq<char>>::empty()) by {
                reveal_with_fuel(top_texts, 2);
                assert(seq![block].drop_last() =~= Seq::<ChunkModel>::empty());
            }
            assert forall|m: int| i <= m < j implies (#[trigger] ind[m]).0 > base by {
                if m > i {
                    assert(ind[m].0 >= w);
                }
            }
            lemma_width_lines_none(ind, i, j, base);
            assert forall|m: int| i <= m < k implies (#[trigger] ind[m]).0 >= base by {
                if m >= j {
                    assert(ind[m].0 >= base);
                } else {
                    assert(ind[m].0 > base);
                }
            }
            lemma_width_lines_split(ind, i, j, k, base);
            assert(level(ind, i, base) == Ok::<(Seq<ChunkModel>, int), CompileError>((seq![block] + c, k)));
        }
    }
}

/// Well-formed indentation: no line is indented less than the first, and a
/// line that dedents comes back to the width of an enclosing line, an
/// earlier line of that width with only deeper lines after it.
pub open spec fn well_indented(ind: Seq<(int, Seq<char>)>) -> bool {
    &&& forall|k: int| 0 <= k < ind.len() ==> (#[trigger] ind[k]).0 >= ind[0].0
    &&& forall|k: int|
        0 < k < ind.len() && (#[trigger] ind[k]).0 < ind[k - 1].0 ==> exists|m: int|
            0 <= m < k && ind[m].0 == ind[k].0 && forall|x: int| m < x < k ==> (#[trigger] ind[x]).0 > ind[k].0
}

/// On well-indented lines a level never meets a dedent to an unknown width.
proof fn lemma_level_ok(ind: Seq<(int, Seq<char>)>, i: int, base: int)
    requires
        well_indented(ind),
        0 <= i <= ind.len(),
        i == ind.len() || ind[i].0 <= base || (i >= 1 && ind[i - 1].0 == base),
    ensures
        level(ind, i, base) is Ok,
    decreases ind.len() - i,
{
    if i < ind.len() {
        let w = ind[i].0;
        if w == base {
            lemma_level_ok(ind, i + 1, base);
        } else if w > base {
            lemma_level_ok(ind, i + 1, w);
            lemma_level_texts(ind, i + 1, w);
            let (sub, j0) = level(ind, i + 1, w)->Ok_0;
            let j = j0;
            if j < ind.len() && ind[j].0 > base {
                assert(ind[j].0 < w);
                assert(ind[j - 1].0 >= w);
                assert(0 < j && ind[j].0 < ind[j - 1].0);
                let m = choose|m: int|
                    0 <= m < j && ind[m].0 == ind[j].0 && forall|x: int| m < x < j ==> (#[trigger] ind[x]).0 > ind[j].0;
                if m >= i + 1 {
                    assert(ind[m].0 >= w);
                } else if m == i {
                } else if m == i - 1 {
                } else {
                    assert(ind[i - 1].0 > ind[j].0);
                }
                assert(false);
            }
            lemma_level_ok(ind, j, base);
        }
    }
}

/// Well-indented lines build a tree.
pub proof fn lemma_well_indented_builds(ind: Seq<(int, Seq<char>)>)
    requires
        well_indented(ind),
    ensures
        tree_spec(ind, 0) is Ok,
{
    if ind.len() > 0 {
        lemma_level_ok(ind, 0, ind[0].0);
        lemma_level_texts(ind, 0, ind[0].0);
        let j = level(ind, 0, ind[0].0)->Ok_0.1;
        if j < ind.len() {
            assert(ind[j].0 >= ind[0].0);
        }
    }
}

/// On well-indented lines the tree built from the first line has, at its
/// top level, one `Text` chunk for each line of the least width (the
/// first's), in order, and no other: every line indented further sits
/// inside a `Block` chunk.
pub proof fn lemma_top_level_texts(ind: Seq<(int, Seq<char>)>)
    requires
        ind.len() > 0,
        well_indented(ind),
    ensures
        tree_spec(ind, 0) is Ok,
        forall|k: int| 0 <= k < ind.len() ==> (#[trigger] ind[k]).0 >= ind[0].0,
        top_texts(tree_spec(ind, 0)->Ok_0) == width_lines(ind, 0, ind.len() as int, ind[0].0),
{
    lemma_well_indented_builds(ind);
    lemma_level_texts(ind, 0, ind[0].0);
}

/// Starting from indent method `Some(c)`, a later line whose indentation
/// holds another character fails with `IndentationError`.
proof fn lemma_method_conflict(ls: Seq<Seq<char>>, k: int, c: char, k1: int, a: int, d: char)
    requires
        0 <= k <= k1 < ls.len(),
        line_content(ls[k1]).len() > 0,
        0 <= a < leading(ls[k1]).len(),
        leading(ls[k1])[a] == d,
        d != c,
    ensures
        collect_from(ls, k, Some(c)) matches Err(CompileError::IndentationError { .. }),
    decreases k1 - k,
{
    let l = ls[k];
    if line_content(l).len() == 0 {
        lemma_method_conflict(ls, k + 1, c, k1, a, d);
    } else if method_ok(Some(c), leading(l)) {
        assert(k != k1);
        lemma_method_conflict(ls, k + 1, c, k1, a, d);
    }
}

/// From line `k` on, with no indent method fixed yet, a space in the
/// indentation of one line and a tab in that of another (or the same) line
/// fail with `IndentationError`.
proof fn lemma_mixed_from(ls: Seq<Seq<char>>, k: int, k1: int, a: int, k2: int, b: int)
    requires
        0 <= k <= k1 < ls.len(),
        k <= k2 < ls.len(),
        line_content(ls[k1]).len() > 0,
        line_content(ls[k2]).len() > 0,
        0 <= a < leading(ls[k1]).len(),
        leading(ls[k1])[a] == ' ',
        0 <= b < leading(ls[k2]).len(),
        leading(ls[k2])[b] == '\t',
    ensures
        collect_from(ls, k, None) matches Err(CompileError::IndentationError { .. }),
    decreases ls.len() - k,
{
    let l = ls[k];
    let w = leading(l);
    if line_content(l).len() == 0 {
        lemma_mixed_from(ls, k + 1, k1, a, k2, b);
    } else if method_ok(None, w) {
        if w.len() == 0 {
            assert(k != k1 && k != k2);
            lemma_mixed_from(ls, k + 1, k1, a, k2, b);
        } else {
            lemma_indent_end(l, 0);
            assert(w[0] == l[0]);
            if w[0] == ' ' {
                if k == k2 {
                    assert(w[b] == w[0]);
                }
                lemma_method_conflict(ls, k + 1, ' ', k2, b, '\t');
            } else {
                if k == k1 {
                    assert(w[a] == w[0]);
                }
                lemma_method_conflict(ls, k + 1, '\t', k1, a, ' ');
            }
        }
    }
}

/// Mixing spaces and tabs in the indentation of one source, on one line or
/// across two, fails with `IndentationError`, wherever the two lines stand.
pub proof fn lemma_mixed_indentation_fails(source: Seq<char>, k1: int, a: int, k2: int, b: int)
    requires
        0 <= k1 < lines_of(source).len(),
        0 <= k2 < lines_of(source).len(),
        line_content(lines_of(source)[k1]).len() > 0,
        line_content(lines_of(source)[k2]).len() > 0,
        0 <= a < leading(lines_of(source)[k1]).len(),
        leading(lines_of(source)[k1])[a] == ' ',
        0 <= b < leading(lines_of(source)[k2]).len(),
        leading(lines_of(source)[k2])[b] == '\t',
    ensures
        collect_from(lines_of(source), 0, None) matches Err(CompileError::IndentationError { .. }),
{
    lemma_mixed_from(lines_of(source), 0, k1, a, k2, b);
}

proof fn lemma_line_content_len(l: Seq<char>)
    ensures
        line_content(l).len() <= l.len(),
{
    lemma_find_char(l, 0, '#');
    let x = l.subrange(0, find_char(l, 0, '#'));
    let w = ws_flags(x);
    lemma_lead_ws(w, 0);
    let a = lead_ws(w, 0);
    if a < x.len() {
        lemma_trail_ws(w, x.len() as int, a);
    }
}

/// The contents that `collect_from` gives are no longer than the longest
/// line.
pub proof fn lemma_collect_lengths(ls: Seq<Seq<char>>, k: int, m: Option<char>, bound: int)
    requires
        0 <= k,
        forall|i: int| 0 <= i < ls.len() ==> (#[trigger] ls[i]).len() <= bound,
    ensures
        collect_from(ls, k, m) is Ok ==> forall|i: int|
            0 <= i < collect_from(ls, k, m)->Ok_0.0.len() ==> (#[trigger] collect_from(ls, k, m)->Ok_0.0[i]).1.len()
                <= bound,
    decreases ls.len() - k,
{
    if k < ls.len() {
        let l = ls[k];
        lemma_line_content_len(l);
        if line_content(l).len() == 0 {
            lemma_collect_lengths(ls, k + 1, m, bound);
        } else {
            let w = leading(l);
            lemma_collect_lengths(ls, k + 1, method_next(m, w), bound);
            if collect_from(ls, k, m) is Ok {
                let (rest, _) = collect_from(ls, k + 1, method_next(m, w))->Ok_0;
                let all = collect_from(ls, k, m)->Ok_0.0;
                assert forall|i: int| 0 <= i < all.len() implies (#[trigger] all[i]).1.len() <= bound by {
                    if i > 0 {
                        assert(all[i] == rest[i - 1]);
                    }
                }
            }
        }
    }
}

} // verus!
