//! What a help text offers, in terms of the names in it.

use crate::completion::parser::{
    arg_offers, flag_offers, offered, offers_of, sub_offers, Arg, Flag, Help, Sub,
};
use crate::completion::{SuggestionGroup, SuggestionView};
use crate::text::begins;
use vstd::prelude::*;

verus! {

/// A name can complete a token: it begins with it, or nothing was typed yet.
pub open spec fn completes(name: Seq<char>, token: Seq<char>) -> bool {
    token.len() == 0 || (token.len() <= name.len() && name.take(token.len() as int) == token)
}

/// The list holds a suggestion with this text.
pub open spec fn lists(s: Seq<SuggestionView>, text: Seq<char>) -> bool {
    exists|k: int| 0 <= k < s.len() && (#[trigger] s[k]).text == text
}

/// The flag goes by this name.
pub open spec fn goes_by(f: Flag, name: Seq<char>) -> bool {
    f.short == Some(name) || f.long == Some(name)
}

/// The suggestion is a flag of the help, as it is described there.
pub open spec fn tells_flag(x: SuggestionView, h: Help) -> bool {
    x.group == SuggestionGroup::Flag && exists|i: int|
        0 <= i < h.flags.len() && goes_by(#[trigger] h.flags[i], x.text) && x.description
            == h.flags[i].description
}

/// The suggestion is a subcommand of the help, as it is described there.
pub open spec fn tells_sub(x: SuggestionView, h: Help) -> bool {
    x.group == SuggestionGroup::Subcommand && exists|i: int|
        0 <= i < h.subs.len() && (#[trigger] h.subs[i]).name == x.text && x.description
            == h.subs[i].description
}

/// The suggestion is an argument of the help, as it is described there.
pub open spec fn tells_arg(x: SuggestionView, h: Help) -> bool {
    x.group == SuggestionGroup::Dynamic && exists|i: int|
        0 <= i < h.args.len() && (#[trigger] h.args[i]).name == x.text && x.description
            == h.args[i].description
}

/// What is added to a list by offering a text.
pub proof fn lemma_offered(
    s: Seq<SuggestionView>,
    text: Seq<char>,
    description: Seq<char>,
    group: SuggestionGroup,
    token: Seq<char>,
)
    ensures
        ({
            let t = offered(s, text, description, group, token);
            &&& s.len() <= t.len() <= s.len() + 1
            &&& forall|k: int| 0 <= k < s.len() ==> #[trigger] t[k] == s[k]
            &&& t.len() > s.len() ==> t.last() == (SuggestionView {
                text,
                display: text,
                description,
                group,
            }) && completes(text, token) && !lists(s, text)
            &&& completes(text, token) ==> lists(t, text)
            &&& forall|x: Seq<char>| #[trigger] lists(s, x) ==> lists(t, x)
        }),
{
    let t = offered(s, text, description, group, token);
    if token.len() > 0 {
        assert(begins(text, token) == completes(text, token)) by {
            if token.len() <= text.len() {
                assert(text.subrange(0, token.len() as int) =~= text.take(token.len() as int));
            }
        }
    }
    assert forall|x: Seq<char>| #[trigger] lists(s, x) implies lists(t, x) by {
        let k = choose|k: int| 0 <= k < s.len() && (#[trigger] s[k]).text == x;
        assert(t[k] == s[k]);
    }
    if t.len() > s.len() {
        assert(t[s.len() as int].text == text);
    }
}

proof fn lemma_flags_listed(h: Help, n: int, token: Seq<char>)
    requires
        0 <= n <= h.flags.len(),
    ensures
        ({
            let t = flag_offers(h.flags, n, token);
            &&& forall|i: int, name: Seq<char>|
                #![trigger goes_by(h.flags[i], name)]
                0 <= i < n && goes_by(h.flags[i], name) && completes(name, token) ==> lists(t, name)
            &&& forall|k: int|
                0 <= k < t.len() ==> tells_flag(#[trigger] t[k], h) && completes(t[k].text, token)
                    && t[k].display == t[k].text
        }),
    decreases n,
{
    if n > 0 {
        lemma_flags_listed(h, n - 1, token);
        let s = flag_offers(h.flags, n - 1, token);
        let f = h.flags[n - 1];
        let first = match f.short {
            Some(t) => offered(s, t, f.description, SuggestionGroup::Flag, token),
            None => s,
        };
        if let Some(t) = f.short {
            lemma_offered(s, t, f.description, SuggestionGroup::Flag, token);
            assert(goes_by(f, t));
        }
        if let Some(t) = f.long {
            lemma_offered(first, t, f.description, SuggestionGroup::Flag, token);
            assert(goes_by(f, t));
        }
        let t = flag_offers(h.flags, n, token);
        assert forall|k: int| 0 <= k < first.len() implies tells_flag(#[trigger] first[k], h)
            && completes(first[k].text, token) && first[k].display == first[k].text by {
            if k < s.len() {
                assert(first[k] == s[k]);
            } else {
                assert(goes_by(h.flags[n - 1], first[k].text));
            }
        }
        assert forall|k: int| 0 <= k < t.len() implies tells_flag(#[trigger] t[k], h) && completes(
            t[k].text,
            token,
        ) && t[k].display == t[k].text by {
            if k < first.len() {
                assert(t[k] == first[k]);
            } else {
                assert(goes_by(h.flags[n - 1], t[k].text));
            }
        }
        assert forall|i: int, name: Seq<char>|
            #![trigger goes_by(h.flags[i], name)]
            0 <= i < n && goes_by(h.flags[i], name) && completes(name, token) implies lists(
            t,
            name,
        ) by {
            if i < n - 1 {
                assert(lists(s, name));
                assert(lists(first, name));
            } else if f.short == Some(name) {
                assert(lists(first, name));
            }
        }
    }
}

proof fn lemma_subs_listed(s: Seq<SuggestionView>, h: Help, n: int, token: Seq<char>)
    requires
        0 <= n <= h.subs.len(),
    ensures
        ({
            let t = sub_offers(s, h.subs, n, token);
            &&& s.len() <= t.len()
            &&& forall|k: int| 0 <= k < s.len() ==> #[trigger] t[k] == s[k]
            &&& forall|i: int|
                0 <= i < n && completes((#[trigger] h.subs[i]).name, token) ==> lists(
                    t,
                    h.subs[i].name,
                )
            &&& forall|x: Seq<char>| #[trigger] lists(s, x) ==> lists(t, x)
            &&& forall|k: int|
                s.len() <= k < t.len() ==> tells_sub(#[trigger] t[k], h) && completes(
                    t[k].text,
                    token,
                ) && t[k].display == t[k].text
        }),
    decreases n,
{
    if n > 0 {
        lemma_subs_listed(s, h, n - 1, token);
        let u = sub_offers(s, h.subs, n - 1, token);
        let c = h.subs[n - 1];
        lemma_offered(u, c.name, c.description, SuggestionGroup::Subcommand, token);
        let t = sub_offers(s, h.subs, n, token);
        assert forall|k: int| s.len() <= k < t.len() implies tells_sub(#[trigger] t[k], h)
            && completes(t[k].text, token) && t[k].display == t[k].text by {
            if k < u.len() {
                assert(t[k] == u[k]);
            } else {
                assert(h.subs[n - 1].name == t[k].text);
            }
        }
        assert forall|k: int| 0 <= k < s.len() implies #[trigger] t[k] == s[k] by {
            assert(t[k] == u[k]);
        }
    }
}

proof fn lemma_args_listed(s: Seq<SuggestionView>, h: Help, n: int, token: Seq<char>)
    requires
        0 <= n <= h.args.len(),
    ensures
        ({
            let t = arg_offers(s, h.args, n, token);
            &&& s.len() <= t.len()
            &&& forall|k: int| 0 <= k < s.len() ==> #[trigger] t[k] == s[k]
            &&& forall|i: int|
                0 <= i < n && completes((#[trigger] h.args[i]).name, token) ==> lists(
                    t,
                    h.args[i].name,
                )
            &&& forall|x: Seq<char>| #[trigger] lists(s, x) ==> lists(t, x)
            &&& forall|k: int|
                s.len() <= k < t.len() ==> tells_arg(#[trigger] t[k], h) && completes(
                    t[k].text,
                    token,
                ) && t[k].display == t[k].text
        }),
    decreases n,
{
    if n > 0 {
        lemma_args_listed(s, h, n - 1, token);
        let u = arg_offers(s, h.args, n - 1, token);
        let a = h.args[n - 1];
        lemma_offered(u, a.name, a.description, SuggestionGroup::Dynamic, token);
        let t = arg_offers(s, h.args, n, token);
        assert forall|k: int| s.len() <= k < t.len() implies tells_arg(#[trigger] t[k], h)
            && completes(t[k].text, token) && t[k].display == t[k].text by {
            if k < u.len() {
                assert(t[k] == u[k]);
            } else {
                assert(h.args[n - 1].name == t[k].text);
            }
        }
        assert forall|k: int| 0 <= k < s.len() implies #[trigger] t[k] == s[k] by {
            assert(t[k] == u[k]);
        }
    }
}

/// Every name in a help text that can complete the token is offered: those of
/// its flags, of its subcommands and of its arguments. Nothing else is: each
/// suggestion is one of them, in its group and with its description. And flags
/// stand in front of subcommands, those in front of arguments.
pub proof fn law_all_names_are_offered(h: Help, token: Seq<char>)
    ensures
        ({
            let t = offers_of(h, token);
            &&& forall|i: int, name: Seq<char>|
                #![trigger goes_by(h.flags[i], name)]
                0 <= i < h.flags.len() && goes_by(h.flags[i], name) && completes(name, token)
                    ==> lists(t, name)
            &&& forall|i: int|
                0 <= i < h.subs.len() && completes((#[trigger] h.subs[i]).name, token) ==> lists(
                    t,
                    h.subs[i].name,
                )
            &&& forall|i: int|
                0 <= i < h.args.len() && completes((#[trigger] h.args[i]).name, token) ==> lists(
                    t,
                    h.args[i].name,
                )
            &&& forall|k: int|
                0 <= k < t.len() ==> {
                    let x = #[trigger] t[k];
                    &&& tells_flag(x, h) || tells_sub(x, h) || tells_arg(x, h)
                    &&& completes(x.text, token)
                    &&& x.display == x.text
                }
            &&& forall|i: int, j: int|
                0 <= i < j < t.len() ==> {
                    &&& (#[trigger] t[i]).group == SuggestionGroup::Dynamic ==> (
                    #[trigger] t[j]).group == SuggestionGroup::Dynamic
                    &&& t[i].group == SuggestionGroup::Subcommand ==> t[j].group
                        != SuggestionGroup::Flag
                }
        }),
{
    let a = flag_offers(h.flags, h.flags.len() as int, token);
    let b = sub_offers(a, h.subs, h.subs.len() as int, token);
    let t = offers_of(h, token);
    lemma_flags_listed(h, h.flags.len() as int, token);
    lemma_subs_listed(a, h, h.subs.len() as int, token);
    lemma_args_listed(b, h, h.args.len() as int, token);
    assert forall|k: int| 0 <= k < t.len() implies (k < a.len() && tells_flag(#[trigger] t[k], h))
        || (a.len() <= k < b.len() && tells_sub(t[k], h)) || (b.len() <= k && tells_arg(t[k], h)) by {
        if k < a.len() {
            assert(t[k] == b[k] && b[k] == a[k]);
        } else if k < b.len() {
            assert(t[k] == b[k]);
        }
    }
    assert forall|k: int| 0 <= k < t.len() implies completes((#[trigger] t[k]).text, token)
        && t[k].display == t[k].text by {
        if k < a.len() {
            assert(t[k] == b[k] && b[k] == a[k]);
        } else if k < b.len() {
            assert(t[k] == b[k]);
        }
    }
    assert forall|i: int, j: int| 0 <= i < j < t.len() implies {
        &&& (#[trigger] t[i]).group == SuggestionGroup::Dynamic ==> (#[trigger] t[j]).group
            == SuggestionGroup::Dynamic
        &&& t[i].group == SuggestionGroup::Subcommand ==> t[j].group != SuggestionGroup::Flag
    } by {
        assert(t[i].group == t[i].group && t[j].group == t[j].group);
    }
}

/// A flag's names as they are offered, the short one first.
pub open spec fn flag_told(f: Flag) -> Seq<SuggestionView> {
    let as_told = |name: Seq<char>|
        SuggestionView {
            text: name,
            display: name,
            description: f.description,
            group: SuggestionGroup::Flag,
        };
    (match f.short {
        Some(name) => seq![as_told(name)],
        None => seq![],
    }) + (match f.long {
        Some(name) => seq![as_told(name)],
        None => seq![],
    })
}

/// The names of flags as they are offered, in their order.
pub open spec fn flags_told(fs: Seq<Flag>) -> Seq<SuggestionView>
    decreases fs.len(),
{
    if fs.len() == 0 {
        seq![]
    } else {
        flags_told(fs.drop_last()) + flag_told(fs.last())
    }
}

/// All names of a help text as they are offered: of its flags, its subcommands
/// and its arguments, each in their order.
pub open spec fn all_told(h: Help) -> Seq<SuggestionView> {
    flags_told(h.flags) + h.subs.map_values(
        |s: Sub|
            SuggestionView {
                text: s.name,
                display: s.name,
                description: s.description,
                group: SuggestionGroup::Subcommand,
            },
    ) + h.args.map_values(
        |a: Arg|
            SuggestionView {
                text: a.name,
                display: a.name,
                description: a.description,
                group: SuggestionGroup::Dynamic,
            },
    )
}

/// Those that complete the token, in their order.
pub open spec fn fitting(xs: Seq<SuggestionView>, token: Seq<char>) -> Seq<SuggestionView>
    decreases xs.len(),
{
    if xs.len() == 0 {
        seq![]
    } else if completes(xs.last().text, token) {
        fitting(xs.drop_last(), token).push(xs.last())
    } else {
        fitting(xs.drop_last(), token)
    }
}

spec fn taken(s: Seq<SuggestionView>, xs: Seq<SuggestionView>, token: Seq<char>) -> Seq<
    SuggestionView,
>
    decreases xs.len(),
{
    if xs.len() == 0 {
        s
    } else {
        let r = taken(s, xs.drop_last(), token);
        let x = xs.last();
        if completes(x.text, token) && !lists(r, x.text) {
            r.push(x)
        } else {
            r
        }
    }
}

proof fn lemma_taken_add(
    s: Seq<SuggestionView>,
    a: Seq<SuggestionView>,
    b: Seq<SuggestionView>,
    token: Seq<char>,
)
    ensures
        taken(s, a + b, token) == taken(taken(s, a, token), b, token),
    decreases b.len(),
{
    if b.len() == 0 {
        assert(a + b =~= a);
    } else {
        assert((a + b).drop_last() =~= a + b.drop_last());
        lemma_taken_add(s, a, b.drop_last(), token);
    }
}

proof fn lemma_taken_one(s: Seq<SuggestionView>, x: SuggestionView, token: Seq<char>)
    requires
        x.display == x.text,
    ensures
        taken(s, seq![x], token) == offered(s, x.text, x.description, x.group, token),
{
    assert(seq![x].drop_last() =~= Seq::<SuggestionView>::empty());
    assert(taken(s, Seq::<SuggestionView>::empty(), token) == s);
    assert(seq![x].last() == x);
    lemma_offered(s, x.text, x.description, x.group, token);
    let y = SuggestionView {
        text: x.text,
        display: x.text,
        description: x.description,
        group: x.group,
    };
    assert(x == y);
    let t = offered(s, x.text, x.description, x.group, token);
    if completes(x.text, token) && !lists(s, x.text) {
        if t.len() == s.len() {
            let k = choose|k: int| 0 <= k < t.len() && (#[trigger] t[k]).text == x.text;
            assert(s[k].text == x.text);
        }
        assert(t =~= s.push(x));
    } else {
        assert(t =~= s);
    }
}

proof fn lemma_flags_taken(fs: Seq<Flag>, n: int, token: Seq<char>)
    requires
        0 <= n <= fs.len(),
    ensures
        flag_offers(fs, n, token) == taken(seq![], flags_told(fs.take(n)), token),
    decreases n,
{
    if n == 0 {
        assert(fs.take(0) =~= seq![]);
    } else {
        lemma_flags_taken(fs, n - 1, token);
        let f = fs[n - 1];
        assert(fs.take(n).drop_last() =~= fs.take(n - 1));
        let before = flag_offers(fs, n - 1, token);
        lemma_taken_add(seq![], flags_told(fs.take(n - 1)), flag_told(f), token);
        let x = match f.short {
            Some(name) => seq![
                SuggestionView {
                    text: name,
                    display: name,
                    description: f.description,
                    group: SuggestionGroup::Flag,
                },
            ],
            None => seq![],
        };
        let y = match f.long {
            Some(name) => seq![
                SuggestionView {
                    text: name,
                    display: name,
                    description: f.description,
                    group: SuggestionGroup::Flag,
                },
            ],
            None => seq![],
        };
        assert(flag_told(f) == x + y);
        lemma_taken_add(before, x, y, token);
        if x.len() > 0 {
            lemma_taken_one(before, x[0], token);
            assert(x =~= seq![x[0]]);
        }
        let first = taken(before, x, token);
        if y.len() > 0 {
            lemma_taken_one(first, y[0], token);
            assert(y =~= seq![y[0]]);
        }
    }
}

proof fn lemma_subs_taken(s: Seq<SuggestionView>, subs: Seq<Sub>, n: int, token: Seq<char>)
    requires
        0 <= n <= subs.len(),
    ensures
        sub_offers(s, subs, n, token) == taken(
            s,
            subs.take(n).map_values(
                |s: Sub|
                    SuggestionView {
                        text: s.name,
                        display: s.name,
                        description: s.description,
                        group: SuggestionGroup::Subcommand,
                    },
            ),
            token,
        ),
    decreases n,
{
    let f = |s: Sub|
        SuggestionView {
            text: s.name,
            display: s.name,
            description: s.description,
            group: SuggestionGroup::Subcommand,
        };
    if n == 0 {
        assert(subs.take(0).map_values(f) =~= seq![]);
    } else {
        lemma_subs_taken(s, subs, n - 1, token);
        let x = f(subs[n - 1]);
        assert(subs.take(n).map_values(f) =~= subs.take(n - 1).map_values(f) + seq![x]);
        lemma_taken_add(s, subs.take(n - 1).map_values(f), seq![x], token);
        lemma_taken_one(sub_offers(s, subs, n - 1, token), x, token);
    }
}

proof fn lemma_args_taken(s: Seq<SuggestionView>, args: Seq<Arg>, n: int, token: Seq<char>)
    requires
        0 <= n <= args.len(),
    ensures
        arg_offers(s, args, n, token) == taken(
            s,
            args.take(n).map_values(
                |a: Arg|
                    SuggestionView {
                        text: a.name,
                        display: a.name,
                        description: a.description,
                        group: SuggestionGroup::Dynamic,
                    },
            ),
            token,
        ),
    decreases n,
{
    let f = |a: Arg|
        SuggestionView {
            text: a.name,
            display: a.name,
            description: a.description,
            group: SuggestionGroup::Dynamic,
        };
    if n == 0 {
        assert(args.take(0).map_values(f) =~= seq![]);
    } else {
        lemma_args_taken(s, args, n - 1, token);
        let x = f(args[n - 1]);
        assert(args.take(n).map_values(f) =~= args.take(n - 1).map_values(f) + seq![x]);
        lemma_taken_add(s, args.take(n - 1).map_values(f), seq![x], token);
        lemma_taken_one(arg_offers(s, args, n - 1, token), x, token);
    }
}

proof fn lemma_offers_taken(h: Help, token: Seq<char>)
    ensures
        offers_of(h, token) == taken(seq![], all_told(h), token),
{
    let a = flags_told(h.flags);
    let b = h.subs.map_values(
        |s: Sub|
            SuggestionView {
                text: s.name,
                display: s.name,
                description: s.description,
                group: SuggestionGroup::Subcommand,
            },
    );
    let c = h.args.map_values(
        |a: Arg|
            SuggestionView {
                text: a.name,
                display: a.name,
                description: a.description,
                group: SuggestionGroup::Dynamic,
            },
    );
    lemma_flags_taken(h.flags, h.flags.len() as int, token);
    assert(h.flags.take(h.flags.len() as int) =~= h.flags);
    let s = flag_offers(h.flags, h.flags.len() as int, token);
    lemma_subs_taken(s, h.subs, h.subs.len() as int, token);
    assert(h.subs.take(h.subs.len() as int) =~= h.subs);
    let t = sub_offers(s, h.subs, h.subs.len() as int, token);
    lemma_args_taken(t, h.args, h.args.len() as int, token);
    assert(h.args.take(h.args.len() as int) =~= h.args);
    lemma_taken_add(seq![], a, b, token);
    lemma_taken_add(seq![], a + b, c, token);
}

/// No two of the names are equal.
pub open spec fn texts_differ(xs: Seq<SuggestionView>) -> bool {
    forall|i: int, j: int|
        0 <= i < j < xs.len() ==> (#[trigger] xs[i]).text != (#[trigger] xs[j]).text
}

proof fn lemma_taken_is_fitting(xs: Seq<SuggestionView>, token: Seq<char>)
    requires
        texts_differ(xs),
    ensures
        taken(seq![], xs, token) == fitting(xs, token),
        forall|k: int|
            0 <= k < fitting(xs, token).len() ==> xs.contains(#[trigger] fitting(xs, token)[k]),
    decreases xs.len(),
{
    if xs.len() > 0 {
        let front = xs.drop_last();
        let x = xs.last();
        assert forall|i: int, j: int| 0 <= i < j < front.len() implies (#[trigger] front[i]).text
            != (#[trigger] front[j]).text by {
            assert(xs[i].text != xs[j].text);
        }
        lemma_taken_is_fitting(front, token);
        let r = taken(seq![], front, token);
        assert(!lists(r, x.text)) by {
            if lists(r, x.text) {
                let k = choose|k: int| 0 <= k < r.len() && (#[trigger] r[k]).text == x.text;
                assert(front.contains(r[k]));
                let i = choose|i: int| 0 <= i < front.len() && front[i] == r[k];
                assert(xs[i].text != xs[xs.len() - 1].text);
            }
        }
        let all = fitting(xs, token);
        assert forall|k: int| 0 <= k < all.len() implies xs.contains(#[trigger] all[k]) by {
            if k < r.len() {
                assert(all[k] == r[k]);
                let i = choose|i: int| 0 <= i < front.len() && front[i] == r[k];
                assert(xs[i] == all[k]);
            } else {
                assert(xs[xs.len() - 1] == all[k]);
            }
        }
    }
}

/// Where no name occurs twice, what is offered is all names that complete the
/// token, in the order of the help text, and the whole of them for an empty one.
pub proof fn law_offers_in_order(h: Help, token: Seq<char>)
    requires
        texts_differ(all_told(h)),
    ensures
        offers_of(h, token) == fitting(all_told(h), token),
{
    lemma_offers_taken(h, token);
    lemma_taken_is_fitting(all_told(h), token);
}

proof fn lemma_first_taken(xs: Seq<SuggestionView>, token: Seq<char>, k: int)
    requires
        0 <= k < taken(seq![], xs, token).len(),
    ensures
        exists|i: int|
            0 <= i < xs.len() && #[trigger] xs[i] == taken(seq![], xs, token)[k] && forall|j: int|
                0 <= j < i ==> (#[trigger] xs[j]).text != xs[i].text,
    decreases xs.len(),
{
    if xs.len() > 0 {
        let front = xs.drop_last();
        let r = taken(seq![], front, token);
        let t = taken(seq![], xs, token);
        if k < r.len() {
            lemma_first_taken(front, token, k);
            let i = choose|i: int|
                0 <= i < front.len() && #[trigger] front[i] == r[k] && forall|j: int|
                    0 <= j < i ==> (#[trigger] front[j]).text != front[i].text;
            assert(xs[i] == t[k]);
            assert forall|j: int| 0 <= j < i implies (#[trigger] xs[j]).text != xs[i].text by {
                assert(front[j].text != front[i].text);
            }
        } else {
            let i = xs.len() - 1;
            assert(xs[i] == t[k]);
            assert forall|j: int| 0 <= j < i implies (#[trigger] xs[j]).text != xs[i].text by {
                if xs[j].text == xs[i].text {
                    lemma_taken_lists(front, token, j);
                }
            }
        }
    }
}

proof fn lemma_taken_lists(xs: Seq<SuggestionView>, token: Seq<char>, j: int)
    requires
        0 <= j < xs.len(),
        completes(xs[j].text, token),
    ensures
        lists(taken(seq![], xs, token), xs[j].text),
    decreases xs.len(),
{
    let front = xs.drop_last();
    let r = taken(seq![], front, token);
    let t = taken(seq![], xs, token);
    if j < front.len() {
        lemma_taken_lists(front, token, j);
        let k = choose|k: int| 0 <= k < r.len() && (#[trigger] r[k]).text == xs[j].text;
        assert(t[k] == r[k]);
    } else if !lists(r, xs[j].text) {
        assert(t[r.len() as int].text == xs[j].text);
    }
}

/// Where a name occurs twice, the first counts.
pub proof fn law_first_of_a_name_counts(h: Help, token: Seq<char>, k: int)
    requires
        0 <= k < offers_of(h, token).len(),
    ensures
        exists|i: int|
            0 <= i < all_told(h).len() && #[trigger] all_told(h)[i] == offers_of(h, token)[k]
                && forall|j: int|
                0 <= j < i ==> (#[trigger] all_told(h)[j]).text != all_told(h)[i].text,
{
    lemma_offers_taken(h, token);
    lemma_first_taken(all_told(h), token, k);
}

} // verus!
