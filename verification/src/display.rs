//! Writing tokens, lists of tokens and expressions as text.
use vstd::prelude::*;
use vstd::string::StringExecFns;
use crate::text::chars_of;
use crate::model::{SpecToken, SpecExpr};
use crate::types::{AccessToken, AccessExpression, AccessTokens, views_of, lemma_expr_view_junction, lemma_child_decreases};

verus! {

/// How a character is written inside quotes: a double quote or a backslash after a
/// backslash, any other character as it is.
pub open spec fn escape_char(c: char) -> Seq<char> {
    if c == '"' || c == '\\' {
        seq!['\\', c]
    } else {
        seq![c]
    }
}

/// The characters of `x` as written inside quotes.
pub open spec fn escaped(x: Seq<char>) -> Seq<char>
    decreases x.len(),
{
    if x.len() == 0 {
        Seq::empty()
    } else {
        escaped(x.drop_last()) + escape_char(x.last())
    }
}

/// The quoted token for the text `x`: a double quote, the characters of `x` as written inside
/// quotes, and a double quote.
pub open spec fn quoted_text(x: Seq<char>) -> Seq<char> {
    seq!['"'] + escaped(x) + seq!['"']
}

/// The text of a token: its text, or for a quoted token its text written by the quoting rule.
pub open spec fn show_token(t: SpecToken) -> Seq<char> {
    match t {
        SpecToken::Unquoted(s) => s,
        SpecToken::Quoted(s) => quoted_text(s),
    }
}

/// The text of a list of tokens: the tokens separated by commas.
pub open spec fn show_tokens(ts: Seq<SpecToken>) -> Seq<char>
    decreases ts.len(),
{
    if ts.len() == 0 {
        Seq::empty()
    } else {
        let init = show_tokens(ts.subrange(0, ts.len() - 1));
        (if ts.len() > 1 { init.push(',') } else { init }) + show_token(ts[ts.len() - 1])
    }
}

/// The junction that an expression is written inside of, if any.
#[derive(Debug, PartialEq, Eq, Structural, Clone, Copy)]
pub enum JunctionContext {
    Unknown,
    And,
    Or,
}

/// The text of an expression written inside `ctx`: a junction written inside a junction of the
/// other kind is put between parentheses.
pub open spec fn show(e: SpecExpr, ctx: JunctionContext) -> Seq<char>
    decreases e,
{
    match e {
        SpecExpr::Empty => Seq::empty(),
        SpecExpr::Token(t) => show_token(t),
        SpecExpr::And(cs) => if ctx == JunctionContext::Or {
            seq!['('] + show_list(cs, '&', JunctionContext::And) + seq![')']
        } else {
            show_list(cs, '&', JunctionContext::And)
        },
        SpecExpr::Or(cs) => if ctx == JunctionContext::And {
            seq!['('] + show_list(cs, '|', JunctionContext::Or) + seq![')']
        } else {
            show_list(cs, '|', JunctionContext::Or)
        },
    }
}

/// The texts of `cs`, each written inside `ctx`, separated by `sep`.
pub open spec fn show_list(cs: Seq<SpecExpr>, sep: char, ctx: JunctionContext) -> Seq<char>
    decreases cs,
{
    if cs.len() == 0 {
        Seq::empty()
    } else {
        let init = show_list(cs.subrange(0, cs.len() - 1), sep, ctx);
        (if cs.len() > 1 { init.push(sep) } else { init }) + show(cs[cs.len() - 1], ctx)
    }
}

/// The text of an expression on its own.
pub open spec fn show_expression(e: SpecExpr) -> Seq<char> {
    show(e, JunctionContext::Unknown)
}

impl AccessToken {
    /// The text of this token.
    pub fn emit(&self) -> (r: String)
        ensures
            r@ == show_token(self@),
    {
        match self {
            AccessToken::Quoted(s) => {
                let cs = chars_of(s.as_str());
                let mut result = String::new();
                result.push('"');
                let mut i: usize = 0;
                assert(cs@.subrange(0, 0) =~= Seq::<char>::empty());
                assert(result@ =~= seq!['"'] + escaped(cs@.subrange(0, 0)));
                while i < cs.len()
                    invariant
                        i <= cs.len(),
                        result@ == seq!['"'] + escaped(cs@.subrange(0, i as int)),
                    decreases cs.len() - i,
                {
                    let c = cs[i];
                    if c == '"' || c == '\\' {
                        result.push('\\');
                    }
                    result.push(c);
                    proof {
                        let next = cs@.subrange(0, i + 1);
                        assert(next.drop_last() =~= cs@.subrange(0, i as int));
                        assert(next.last() == c);
                        assert(result@ =~= seq!['"'] + escaped(next));
                    }
                    i += 1;
                }
                result.push('"');
                assert(cs@.subrange(0, i as int) =~= s@);
                assert(result@ =~= show_token(self@));
                result
            },
            AccessToken::Unquoted(s) => s.clone(),
        }
    }

    /// The text of this token.
    pub fn to_string(&self) -> (r: String)
        ensures
            r@ == show_token(self@),
    {
        self.emit()
    }
}

impl AccessTokens {
    /// The text of these tokens: each token's text, separated by commas.
    pub fn to_string(&self) -> (r: String)
        ensures
            r@ == show_tokens(self@),
    {
        let mut buffer = String::new();
        let mut i: usize = 0;
        assert(views_of(self.tokens@).subrange(0, 0) =~= Seq::<SpecToken>::empty());
        while i < self.tokens.len()
            invariant
                i <= self.tokens.len(),
                buffer@ == show_tokens(views_of(self.tokens@).subrange(0, i as int)),
            decreases self.tokens.len() - i,
        {
            let ghost before = buffer@;
            if i > 0 {
                buffer.push(',');
            }
            let text = self.tokens[i].to_string();
            buffer.append(text.as_str());
            proof {
                let vs = views_of(self.tokens@);
                assert(vs.subrange(0, i + 1).subrange(0, i as int) =~= vs.subrange(0, i as int));
                assert(buffer@ =~= show_tokens(vs.subrange(0, i + 1)));
            }
            i += 1;
        }
        assert(views_of(self.tokens@).subrange(0, i as int) =~= views_of(self.tokens@));
        buffer
    }
}

impl AccessExpression {
    /// Appends the text of this expression, written inside `context`, to `buf`.
    pub fn write_into(&self, buf: &mut String, context: JunctionContext)
        ensures
            final(buf)@ == old(buf)@ + show(self@, context),
        decreases self,
    {
        proof {
            broadcast use lemma_expr_view_junction;
        }
        match self {
            AccessExpression::Empty => {
                assert(buf@ =~= buf@ + Seq::<char>::empty());
            },
            AccessExpression::Token(t) => {
                let text = t.emit();
                buf.append(text.as_str());
            },
            AccessExpression::And(cs) => {
                let paren = context == JunctionContext::Or;
                self.write_children(cs, '&', JunctionContext::And, paren, buf);
            },
            AccessExpression::Or(cs) => {
                let paren = context == JunctionContext::And;
                self.write_children(cs, '|', JunctionContext::Or, paren, buf);
            },
        }
    }

    /// Appends the texts of the children `cs` of this junction, separated by `sep`.
    fn write_children(&self, cs: &Vec<AccessExpression>, sep: char, inner: JunctionContext, paren: bool, buf: &mut String)
        requires
            (*self is And && self->And_0 == *cs) || (*self is Or && self->Or_0 == *cs),
        ensures
            final(buf)@ == old(buf)@ + if paren {
                seq!['('] + show_list(views_of(cs@), sep, inner) + seq![')']
            } else {
                show_list(views_of(cs@), sep, inner)
            },
        decreases self, 0int,
    {
        let ghost start = buf@;
        if paren {
            buf.push('(');
        }
        let ghost opened = buf@;
        let ghost vs = views_of(cs@);
        let mut i: usize = 0;
        assert(vs.subrange(0, 0) =~= Seq::<SpecExpr>::empty());
        assert(buf@ =~= opened + show_list(vs.subrange(0, 0), sep, inner));
        while i < cs.len()
            invariant
                (*self is And && self->And_0 == *cs) || (*self is Or && self->Or_0 == *cs),
                vs == views_of(cs@),
                i <= cs.len(),
                buf@ == opened + show_list(vs.subrange(0, i as int), sep, inner),
            decreases cs.len() - i,
        {
            if i > 0 {
                buf.push(sep);
            }
            proof {
                lemma_child_decreases(*self, i as int);
            }
            cs[i].write_into(buf, inner);
            proof {
                assert(vs.subrange(0, i + 1).subrange(0, i as int) =~= vs.subrange(0, i as int));
                assert(buf@ =~= opened + show_list(vs.subrange(0, i + 1), sep, inner));
            }
            i += 1;
        }
        assert(vs.subrange(0, i as int) =~= vs);
        if paren {
            buf.push(')');
        }
        assert(buf@ =~= start + if paren {
            seq!['('] + show_list(vs, sep, inner) + seq![')']
        } else {
            show_list(vs, sep, inner)
        });
    }

    /// The text of this expression.
    pub fn to_string(&self) -> (r: String)
        ensures
            r@ == show_expression(self@),
    {
        let mut buffer = String::new();
        self.write_into(&mut buffer, JunctionContext::Unknown);
        assert(buffer@ =~= show_expression(self@));
        buffer
    }
}

} // verus!
