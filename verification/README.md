# codex_skills

The skill catalogue of an agent host, verified with Verus.

- `src/model.rs`: skill metadata, load errors, the load outcome, and the
  filesystem-wins merge of MCP-served skills.
- `src/render.rs`: the skills section of the instructions.
- `src/mcp_loader.rs`: the decisions of Skills-over-MCP discovery: URL
  validation, index entry handling, the read outcomes, and the aggregation
  of every server's skills.
- `src/order.rs`: the listing order of MCP-served skills (by server, then
  name, byte-wise, stable) and its laws, including that the merged listing
  does not depend on the order in which servers are asked.
- `src/path.rs`: paths compared component by component, as `Path` does on
  Unix.
- `src/injection.rs`: which skills the user explicitly invoked, and what
  each one injects.
- `src/text.rs`: string helpers (decimal formatting, joining lines).
- `app/`: the asynchronous plumbing (MCP `resources/read` with timeout,
  SKILL.md file reads, JSON decoding of `skill://index.json`, logging).
