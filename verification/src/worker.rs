//! Jobs and results: the unit of work handed to one search, what an
//! accepted search emits, and how a result renders into an output payload.

use vstd::prelude::*;
use vstd::string::StrSliceExecFns;
use crate::text::append_chars;
use crate::text::chars_to_string;
use crate::text::decimal;
use crate::text::decimal_chars;
use crate::text::find_from;
use crate::text::find_sub;
use crate::text::lemma_find_from_spec;
use crate::text::replace_chars;
use crate::text::replace_from;
use crate::text::split_by;
use crate::text::split_chars;
use crate::text::str_eq;
use crate::text::to_chars;

verus! {

/// One unit of work: the identifier to search over, and the substring of the
/// target path that ties an accepted result back into the output template.
pub struct Job {
    pub identifier: String,
    pub substring: String,
}

impl View for Job {
    type V = (Seq<char>, Seq<char>);

    open spec fn view(&self) -> Self::V {
        (self.identifier@, self.substring@)
    }
}

/// An accepted search: the expression resolves uniquely to the job's
/// identifier, which the dictionary value `value` owns.
pub struct Result {
    pub value: String,
    pub expression: String,
    pub job: Job,
}

/// The template fragment that expands the expression in place.
pub open spec fn env_crib(expr: Seq<char>) -> Seq<char> {
    "${env:"@ + expr + "}"@
}

/// The fragment used when the substring covers only part of the value:
/// slice the expanded value at `begin..end` and join the characters back.
pub open spec fn sliced_crib(expr: Seq<char>, begin: nat, end: nat) -> Seq<char> {
    "(\"${env:"@ + expr + "}\"["@ + decimal(begin) + ".."@ + decimal(end) + "]-join'')"@
}

/// A path piece, quoted for the output template.
pub open spec fn quoted(p: Seq<char>) -> Seq<char> {
    seq!['"'] + p + seq!['"']
}

/// The template pieces built from the path parts, from part `i` on: each
/// non-empty part is quoted, the crib stands between parts, and an empty
/// part is skipped, except that an empty leading part puts the crib first.
pub open spec fn template_pieces(parts: Seq<Seq<char>>, crib: Seq<char>, i: int) -> Seq<Seq<char>>
    decreases parts.len() - i,
{
    if i < 0 || i >= parts.len() {
        Seq::empty()
    } else {
        (if parts[i].len() == 0 {
            if i == 0 {
                seq![crib]
            } else {
                Seq::<Seq<char>>::empty()
            }
        } else if i == parts.len() - 1 {
            seq![quoted(parts[i])]
        } else {
            seq![quoted(parts[i]), crib]
        }) + template_pieces(parts, crib, i + 1)
    }
}

/// The pieces after the first, each preceded by a joining `+`.
pub open spec fn join_tail(ps: Seq<Seq<char>>) -> Seq<char>
    decreases ps.len(),
{
    if ps.len() == 0 {
        Seq::empty()
    } else {
        seq!['+'] + ps[0] + join_tail(ps.skip(1))
    }
}

/// The pieces joined with `+`.
pub open spec fn join_plus(ps: Seq<Seq<char>>) -> Seq<char> {
    if ps.len() == 0 {
        Seq::empty()
    } else {
        ps[0] + join_tail(ps.skip(1))
    }
}

/// What an accepted result renders to. Where the substring is the whole
/// identifier, the path simply embeds the expansion; otherwise the path is
/// cut at the substring and rebuilt around a slice of the expanded value.
pub open spec fn format_spec(
    value: Seq<char>,
    expr: Seq<char>,
    identifier: Seq<char>,
    substring: Seq<char>,
    path: Seq<char>,
) -> Seq<char> {
    if substring == identifier {
        replace_from(path, substring, env_crib(expr), 0)
    } else {
        let begin = match find_from(value, substring, 0) {
            Some(b) => b,
            None => 0,
        };
        let crib = sliced_crib(expr, begin as nat, (begin + substring.len() - 1) as nat);
        join_plus(template_pieces(split_by(path, substring), crib, 0))
    }
}

/// A fresh buffer holding the same characters.
fn clone_chars(v: &Vec<char>) -> (r: Vec<char>)
    ensures
        r@ == v@,
{
    let mut r: Vec<char> = Vec::new();
    append_chars(&mut r, v);
    proof {
        assert(Seq::<char>::empty() + v@ =~= v@);
    }
    r
}

impl Result {
    /// Renders the accepted result into the output payload line.
    pub fn format(&self, path: &str) -> (r: String)
        requires
            self.job.substring@.len() >= 1,
            self.job.substring@ != self.job.identifier@ ==> find_from(
                self.value@,
                self.job.substring@,
                0,
            ) is Some,
        ensures
            r@ == format_spec(
                self.value@,
                self.expression@,
                self.job.identifier@,
                self.job.substring@,
                path@,
            ),
    {
        let ss = to_chars(self.job.substring.as_str());
        let expr = to_chars(self.expression.as_str());
        let path_chars = to_chars(path);
        if str_eq(self.job.substring.as_str(), self.job.identifier.as_str()) {
            let mut crib: Vec<char> = to_chars("${env:");
            append_chars(&mut crib, &expr);
            crib.push('}');
            proof {
                reveal_strlit("}");
                assert("}"@ =~= seq!['}']);
                assert(("${env:"@ + self.expression@).push('}') =~= "${env:"@ + self.expression@
                    + "}"@);
            }
            let out = replace_chars(&path_chars, &ss, &crib);
            chars_to_string(&out)
        } else {
            let value_chars = to_chars(self.value.as_str());
            let begin_opt = find_sub(&value_chars, &ss);
            proof {
                lemma_find_from_spec(self.value@, self.job.substring@, 0);
            }
            let begin: usize = match begin_opt {
                Some(b) => b,
                None => {
                    proof {
                        assert(false);
                    }
                    0
                },
            };
            let vlen = value_chars.len();
            proof {
                assert(begin + ss@.len() <= vlen);
            }
            let end = begin + ss.len() - 1;
            let mut crib: Vec<char> = to_chars("(\"${env:");
            append_chars(&mut crib, &expr);
            let mid = to_chars("}\"[");
            append_chars(&mut crib, &mid);
            let b_dec = decimal_chars(begin);
            append_chars(&mut crib, &b_dec);
            let dots = to_chars("..");
            append_chars(&mut crib, &dots);
            let e_dec = decimal_chars(end);
            append_chars(&mut crib, &e_dec);
            let tail = to_chars("]-join'')");
            append_chars(&mut crib, &tail);
            proof {
                assert(crib@ =~= sliced_crib(self.expression@, begin as nat, end as nat));
            }
            let parts = split_chars(&path_chars, &ss);
            let ghost parts_dv = parts.deep_view();
            let np = parts.len();
            let mut pieces: Vec<Vec<char>> = Vec::new();
            let mut idx: usize = 0;
            while idx < np
                invariant
                    np == parts@.len(),
                    np == parts_dv.len(),
                    parts_dv == parts.deep_view(),
                    crib@ == sliced_crib(self.expression@, begin as nat, end as nat),
                    0 <= idx <= np,
                    template_pieces(parts_dv, crib@, 0) == pieces.deep_view() + template_pieces(
                        parts_dv,
                        crib@,
                        idx as int,
                    ),
                decreases np - idx,
            {
                let ghost pdv0 = pieces.deep_view();
                proof {
                    assert(parts@[idx as int].deep_view() =~= parts@[idx as int]@);
                }
                if parts[idx].len() == 0 {
                    if idx == 0 {
                        let c = clone_chars(&crib);
                        pieces.push(c);
                        proof {
                            assert(pieces.deep_view() =~~= pdv0.push(crib@));
                            assert(pdv0 + (seq![crib@] + template_pieces(parts_dv, crib@, 1))
                                =~= pdv0.push(crib@) + template_pieces(parts_dv, crib@, 1));
                        }
                    }
                } else {
                    let mut q: Vec<char> = Vec::new();
                    q.push('"');
                    append_chars(&mut q, &parts[idx]);
                    q.push('"');
                    proof {
                        assert(q@ =~= quoted(parts_dv[idx as int]));
                    }
                    if idx == np - 1 {
                        pieces.push(q);
                        proof {
                            assert(pieces.deep_view() =~~= pdv0.push(quoted(parts_dv[idx as int])));
                            assert(pdv0 + (seq![quoted(parts_dv[idx as int])] + template_pieces(
                                parts_dv,
                                crib@,
                                idx + 1,
                            )) =~= pdv0.push(quoted(parts_dv[idx as int])) + template_pieces(
                                parts_dv,
                                crib@,
                                idx + 1,
                            ));
                        }
                    } else {
                        pieces.push(q);
                        let c = clone_chars(&crib);
                        pieces.push(c);
                        proof {
                            assert(pieces.deep_view() =~~= pdv0.push(
                                quoted(parts_dv[idx as int]),
                            ).push(crib@));
                            assert(pdv0 + (seq![quoted(parts_dv[idx as int]), crib@]
                                + template_pieces(parts_dv, crib@, idx + 1)) =~= pdv0.push(
                                quoted(parts_dv[idx as int]),
                            ).push(crib@) + template_pieces(parts_dv, crib@, idx + 1));
                        }
                    }
                }
                idx += 1;
            }
            proof {
                assert(template_pieces(parts_dv, crib@, np as int) =~= Seq::<Seq<char>>::empty());
                assert(pieces.deep_view() + Seq::<Seq<char>>::empty() =~= pieces.deep_view());
            }
            let ghost ps = pieces.deep_view();
            let mp = pieces.len();
            let mut out: Vec<char> = Vec::new();
            if mp > 0 {
                append_chars(&mut out, &pieces[0]);
                proof {
                    assert(pieces@[0].deep_view() =~= pieces@[0]@);
                    assert(Seq::<char>::empty() + ps[0] =~= ps[0]);
                }
                let mut k: usize = 1;
                while k < mp
                    invariant
                        mp == pieces@.len(),
                        mp == ps.len(),
                        ps == pieces.deep_view(),
                        1 <= k <= mp,
                        out@ == ps[0] + join_tail(ps.subrange(1, k as int)),
                    decreases mp - k,
                {
                    let ghost out0 = out@;
                    out.push('+');
                    append_chars(&mut out, &pieces[k]);
                    proof {
                        assert(pieces@[k as int].deep_view() =~= pieces@[k as int]@);
                        lemma_join_tail_push(ps.subrange(1, k as int), ps[k as int]);
                        assert(ps.subrange(1, k + 1) =~= ps.subrange(1, k as int).push(
                            ps[k as int],
                        ));
                        assert(out@ =~= ps[0] + join_tail(ps.subrange(1, k + 1)));
                    }
                    k += 1;
                }
                proof {
                    assert(ps.subrange(1, mp as int) =~= ps.skip(1));
                }
            }
            proof {
                assert(out@ =~= join_plus(ps));
            }
            chars_to_string(&out)
        }
    }
}

/// Joining one more piece extends the tail by a `+` and the piece.
proof fn lemma_join_tail_push(ps: Seq<Seq<char>>, piece: Seq<char>)
    ensures
        join_tail(ps.push(piece)) == join_tail(ps) + seq!['+'] + piece,
    decreases ps.len(),
{
    if ps.len() == 0 {
        assert(ps.push(piece)[0] == piece);
        assert(ps.push(piece).skip(1) =~= Seq::<Seq<char>>::empty());
        assert(join_tail(ps.push(piece)) == seq!['+'] + piece + join_tail(
            ps.push(piece).skip(1),
        ));
        assert(join_tail(ps.push(piece).skip(1)) == Seq::<char>::empty());
        assert(seq!['+'] + piece + Seq::<char>::empty() =~= join_tail(ps) + seq!['+'] + piece);
    } else {
        assert(ps.push(piece)[0] == ps[0]);
        assert(ps.push(piece).skip(1) =~= ps.skip(1).push(piece));
        lemma_join_tail_push(ps.skip(1), piece);
        assert(join_tail(ps.push(piece)) == seq!['+'] + ps[0] + join_tail(
            ps.skip(1).push(piece),
        ));
        assert(join_tail(ps) == seq!['+'] + ps[0] + join_tail(ps.skip(1)));
        assert(seq!['+'] + ps[0] + (join_tail(ps.skip(1)) + seq!['+'] + piece) =~= (seq!['+']
            + ps[0] + join_tail(ps.skip(1))) + seq!['+'] + piece);
    }
}

} // verus!
