//! The layout of the command line: blocks of arguments, each with an
//! optional short and long switch, and which of them must be given.

use vstd::prelude::*;
use vstd::string::*;

verus! {

/// One positional argument of a block.
#[derive(Debug)]
pub struct Arg {
    /// The name under which the argument's value is handed on.
    pub value: String,
    pub required: bool,
}

/// A group of arguments that is selected by a switch, or, without one, by
/// position. A block may hold further blocks.
#[derive(Debug)]
pub struct Block {
    pub short: String,
    pub long: String,
    pub required: bool,
    pub args: Vec<Arg>,
    pub blocks: Vec<Block>,
}

/// The name and the `required` mark of each argument of a list.
pub open spec fn arg_views(args: Seq<Arg>) -> Seq<(Seq<char>, bool)> {
    args.map_values(|a: Arg| (a.value@, a.required))
}

impl Block {
    /// Whether the block has these switches, this mark, these arguments and
    /// this number of inner blocks.
    pub open spec fn has_layout(
        self,
        short: Seq<char>,
        long: Seq<char>,
        required: bool,
        args: Seq<(Seq<char>, bool)>,
        inner: int,
    ) -> bool {
        &&& self.short@ == short
        &&& self.long@ == long
        &&& self.required == required
        &&& arg_views(self.args@) == args
        &&& self.blocks@.len() == inner
    }

    /// A block without arguments and without inner blocks.
    pub fn new(short: &str, long: &str, required: bool) -> (block: Block)
        ensures
            block.has_layout(short@, long@, required, Seq::empty(), 0),
    {
        let block = Block {
            short: String::from_str(short),
            long: String::from_str(long),
            required,
            args: Vec::new(),
            blocks: Vec::new(),
        };
        assert(arg_views(block.args@) =~= Seq::empty());
        block
    }

    /// The block with `args` put behind the arguments it has.
    pub fn register_args(self, args: Vec<Arg>) -> (block: Block)
        ensures
            block.has_layout(
                self.short@,
                self.long@,
                self.required,
                arg_views(self.args@) + arg_views(args@),
                self.blocks@.len() as int,
            ),
            block.blocks@ == self.blocks@,
    {
        let mut block = self;
        block.register_args_ref(args);
        block
    }

    /// Puts `args` behind the arguments the block has.
    pub fn register_args_ref(&mut self, args: Vec<Arg>)
        ensures
            final(self).has_layout(
                old(self).short@,
                old(self).long@,
                old(self).required,
                arg_views(old(self).args@) + arg_views(args@),
                old(self).blocks@.len() as int,
            ),
            final(self).blocks@ == old(self).blocks@,
    {
        let mut args = args;
        let ghost added = args@;
        self.args.append(&mut args);
        assert(arg_views(self.args@) =~= arg_views(old(self).args@) + arg_views(added));
    }

    /// Puts `blocks` behind the inner blocks the block has.
    pub fn register_blocks_ref(&mut self, blocks: Vec<Block>)
        ensures
            final(self).has_layout(
                old(self).short@,
                old(self).long@,
                old(self).required,
                arg_views(old(self).args@),
                (old(self).blocks@.len() + blocks@.len()) as int,
            ),
            final(self).blocks@ == old(self).blocks@ + blocks@,
    {
        let mut blocks = blocks;
        self.blocks.append(&mut blocks);
    }
}

/// A required argument of the given name.
pub fn required_arg(name: &str) -> (arg: Arg)
    ensures
        arg.value@ == name@,
        arg.required,
{
    Arg { value: String::from_str(name), required: true }
}

/// The layout of the program's command line: the account to work on, and
/// three inner blocks, one that creates an account (switch `-n`, `--new`),
/// one that gives a label and an amount, and one that gives a date and a
/// note.
pub fn setup_args() -> (layout: Block)
    ensures
        layout.has_layout(""@, ""@, true, seq![("account"@, true)], 3),
        layout.blocks@[0].has_layout("-n"@, "--new"@, true, seq![("account"@, true)], 0),
        layout.blocks@[1].has_layout(
            ""@,
            ""@,
            false,
            seq![("label"@, true), ("amount"@, true)],
            0,
        ),
        layout.blocks@[2].has_layout(""@, ""@, false, seq![("date"@, true), ("note"@, true)], 0),
{
    let mut layout = Block::new("", "", true);

    let mut account: Vec<Arg> = Vec::new();
    account.push(required_arg("account"));
    let create = Block::new("-n", "--new", true).register_args(account);
    assert(arg_views(create.args@) =~= seq![("account"@, true)]);

    let mut entry: Vec<Arg> = Vec::new();
    entry.push(required_arg("label"));
    entry.push(required_arg("amount"));
    let labelled = Block::new("", "", false).register_args(entry);
    assert(arg_views(labelled.args@) =~= seq![("label"@, true), ("amount"@, true)]);

    let mut remark: Vec<Arg> = Vec::new();
    remark.push(required_arg("date"));
    remark.push(required_arg("note"));
    let dated = Block::new("", "", false).register_args(remark);
    assert(arg_views(dated.args@) =~= seq![("date"@, true), ("note"@, true)]);

    let mut inner: Vec<Block> = Vec::new();
    inner.push(create);
    inner.push(labelled);
    inner.push(dated);
    layout.register_blocks_ref(inner);

    let mut top: Vec<Arg> = Vec::new();
    top.push(required_arg("account"));
    layout.register_args_ref(top);
    assert(arg_views(layout.args@) =~= seq![("account"@, true)]);
    layout
}

} // verus!
