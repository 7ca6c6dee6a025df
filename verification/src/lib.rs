//! Annotation language for SQL files: a parser that splits an annotated
//! file into named `Query` records, and a parser that splits one SQL body
//! into literal and conditionally included blocks.

use vstd::prelude::*;

pub mod chars;
pub mod condblock;
pub mod parser;

verus! {

/// Which database backend a code generator should emit calls for.
pub enum ContextType {
    Postgres,
    Sqlite,
    Mysql,
    Default,
}

/// The spec-level image of `snake_to_pascal`: underscores are dropped
/// and the character after each dropped underscore (and the first
/// character) is replaced by its Unicode upper-case mapping, which may
/// be several characters long.
pub open spec fn snake_to_pascal_spec(s: Seq<char>, capitalize: bool) -> Seq<char>
    decreases s.len(),
{
    if s.len() == 0 {
        s
    } else if s[0] == '_' {
        snake_to_pascal_spec(s.skip(1), true)
    } else if capitalize {
        crate::chars::upper_of(s[0]) + snake_to_pascal_spec(s.skip(1), false)
    } else {
        seq![s[0]] + snake_to_pascal_spec(s.skip(1), false)
    }
}

/// Turns a snake_case identifier into PascalCase: each underscore is
/// dropped and the following character (as well as the first one) is
/// upper-cased by the Unicode mapping, an expansion of several
/// characters kept in full.
pub fn snake_to_pascal(snake: &str) -> (result: String)
    ensures
        result@ == snake_to_pascal_spec(snake@, true),
{
    let cs = crate::chars::chars_of(snake);
    let mut result = String::new();
    let mut i: usize = 0;
    let mut capitalize_next = true;
    proof {
        assert(snake@.skip(0) =~= snake@);
        assert(Seq::<char>::empty() + snake_to_pascal_spec(snake@, true) =~= snake_to_pascal_spec(
            snake@,
            true,
        ));
    }
    while i < cs.len()
        invariant
            i <= cs.len(),
            cs@ == snake@,
            snake_to_pascal_spec(snake@, true) == result@ + snake_to_pascal_spec(
                snake@.skip(i as int),
                capitalize_next,
            ),
        decreases cs.len() - i,
    {
        let c = cs[i];
        proof {
            assert(snake@.skip(i as int)[0] == cs@[i as int]);
            assert(snake@.skip(i as int).skip(1) =~= snake@.skip(i + 1));
        }
        if c == '_' {
            capitalize_next = true;
        } else if capitalize_next {
            let ghost r0 = result@;
            let up = crate::chars::to_uppercase_chars(c);
            result.append(up.as_str());
            proof {
                assert(r0 + (crate::chars::upper_of(c) + snake_to_pascal_spec(
                    snake@.skip(i + 1),
                    false,
                )) =~= result@ + snake_to_pascal_spec(snake@.skip(i + 1), false));
            }
            capitalize_next = false;
        } else {
            crate::chars::push_char(&mut result, c);
        }
        i = i + 1;
    }
    proof {
        assert(snake@.skip(cs@.len() as int) =~= Seq::<char>::empty());
        assert(result@ + Seq::<char>::empty() =~= result@);
    }
    result
}

} // verus!
