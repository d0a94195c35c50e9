# max_stack

The maximum depth of the operand stack of a JVM method, calculated from its instructions, its constant
pool and its exception table, and verified with Verus.

```rust
use max_stack::{ConstantPool, Instruction, MaxStack};

let constant_pool = ConstantPool::new();
let instructions = [
    Instruction::Iconst_0,
    Instruction::Iconst_1,
    Instruction::Pop,
    Instruction::Pop,
    Instruction::Return,
];
assert_eq!(instructions.max_stack(&constant_pool), Ok(2));
```

`max_stack_with_exception_table` takes the exception handlers into account as well. The result is in stack
slots and suits the `max_stack` field of a method's `Code` attribute. The analysis follows all branch and
switch targets, the edges to exception handlers, and the return addresses of `jsr` and `ret`.

## Layout

- `analysis`: the calculation and its contract, `analyzed`.
- `machine`: what each instruction does to the state of a method.
- `search`: the states that are looked at, in order, and the result, `max_depth`.
- `soundness`: the result is the maximum of the depths that executions come to; a fault that is reported
  is one that an execution comes to; every target and handler is followed; what changes of the code make
  no difference.
- `subroutines`, `depth`, `confinement`, `bounds`, `capacity`: what holds of return addresses, of the depth
  after each instruction, of every state, of the number of states and of the number of stacks.
- `arena`, `locals`, `state`, `worklist`, `operand`, `transfer`, `flow`: the executable parts.
- `instruction`, `constant_pool`, `descriptor`, `error`, `text`, `value`: the data.
- `collections`: the hash tables of `ahash` and `indexmap`, whose behaviour is believed, not proved.
